//! The argument builder: the ordered screen list rendered into the flat
//! token list that reconfigures the displays.
//!
//! Each screen contributes its output selector, mode and (when present)
//! rate; the first screen is the primary display, every later one is placed
//! immediately to the right of the screen before it.

use vstd::prelude::*;
use crate::model::{Screen, ScreenView};

verus! {

pub open spec fn tok_output() -> Seq<char> {
    seq!['-', '-', 'o', 'u', 't', 'p', 'u', 't']
}

pub open spec fn tok_mode() -> Seq<char> {
    seq!['-', '-', 'm', 'o', 'd', 'e']
}

pub open spec fn tok_rate() -> Seq<char> {
    seq!['-', '-', 'r', 'a', 't', 'e']
}

pub open spec fn tok_primary() -> Seq<char> {
    seq!['-', '-', 'p', 'r', 'i', 'm', 'a', 'r', 'y']
}

pub open spec fn tok_right_of() -> Seq<char> {
    seq!['-', '-', 'r', 'i', 'g', 'h', 't', '-', 'o', 'f']
}

/// The tokens one screen contributes, given the name of the screen placed
/// before it (none for the first, primary screen).
pub open spec fn segment(s: ScreenView, prev: Option<Seq<char>>) -> Seq<Seq<char>> {
    seq![tok_output(), s.output, tok_mode(), s.resolution] + (match s.rate {
        Some(r) => seq![tok_rate(), r.text()],
        None => Seq::empty(),
    }) + (match prev {
        None => seq![tok_primary()],
        Some(p) => seq![tok_right_of(), p],
    })
}

/// The tokens of `screens` in order, each screen related to the one before
/// it, the first to `prev`.
pub open spec fn args_from(screens: Seq<ScreenView>, prev: Option<Seq<char>>) -> Seq<Seq<char>>
    decreases screens.len(),
{
    if screens.len() == 0 {
        Seq::empty()
    } else {
        segment(screens[0], prev) + args_from(screens.skip(1), Some(screens[0].output))
    }
}

/// What the builder emits: every screen's tokens in input order, the first
/// screen primary, every other placed right of its immediate predecessor.
pub open spec fn args_spec(screens: Seq<ScreenView>) -> Seq<Seq<char>> {
    args_from(screens, None)
}

fn push_tok(args: &mut Vec<String>, tok: &str)
    ensures
        final(args).deep_view() == old(args).deep_view().push(tok@),
{
    let ghost old_deep = args.deep_view();
    args.push(tok.to_owned());
    proof {
        assert(args.deep_view() =~= old_deep.push(tok@));
    }
}

/// Renders the ordered screen list into the flat argument list. A pure
/// function of the screen sequence: the same screens always yield the same
/// tokens, and no input fails.
pub fn xrandr_args(screens: Vec<Screen>) -> (r: Vec<String>)
    ensures
        r.deep_view() == args_spec(screens.deep_view()),
{
    let ghost full = screens.deep_view();
    let mut rest = screens;
    let mut args: Vec<String> = Vec::new();
    let mut last_output: Option<String> = None;
    proof {
        assert(args.deep_view() =~= Seq::<Seq<char>>::empty());
        assert(rest.deep_view() =~= full);
    }
    while rest.len() > 0
        invariant
            args_spec(full) == args.deep_view() + args_from(
                rest.deep_view(),
                match last_output {
                    None => None,
                    Some(p) => Some(p@),
                },
            ),
        decreases rest@.len(),
    {
        let ghost old_rest = rest.deep_view();
        let ghost old_args = args.deep_view();
        let ghost prevv: Option<Seq<char>> = match last_output {
            None => None,
            Some(ref p) => Some(p@),
        };
        let screen = rest.remove(0);
        proof {
            assert(screen.deep_view() == old_rest[0]);
            assert(rest.deep_view() =~= old_rest.skip(1));
        }
        push_tok(&mut args, "--output");
        let ghost t1 = args.deep_view();
        args.push(screen.output.clone());
        proof {
            assert(args.deep_view() =~= t1.push(screen.output@));
        }
        push_tok(&mut args, "--mode");
        let ghost t2 = args.deep_view();
        args.push(screen.resolution.clone());
        proof {
            assert(args.deep_view() =~= t2.push(screen.resolution@));
        }
        match screen.rate {
            Some(rt) => {
                push_tok(&mut args, "--rate");
                let ghost t3 = args.deep_view();
                args.push(rt.to_text());
                proof {
                    assert(args.deep_view() =~= t3.push(rt.text()));
                }
            },
            None => {},
        }
        let prev = last_output;
        last_output = Some(screen.output);
        match prev {
            Some(p) => {
                push_tok(&mut args, "--right-of");
                let ghost t4 = args.deep_view();
                args.push(p);
                proof {
                    assert(args.deep_view() =~= t4.push(prevv->Some_0));
                }
            },
            None => {
                push_tok(&mut args, "--primary");
            },
        }
        proof {
            reveal_strlit("--output");
            reveal_strlit("--mode");
            reveal_strlit("--rate");
            reveal_strlit("--primary");
            reveal_strlit("--right-of");
            assert("--output"@ =~= tok_output());
            assert("--mode"@ =~= tok_mode());
            assert("--rate"@ =~= tok_rate());
            assert("--primary"@ =~= tok_primary());
            assert("--right-of"@ =~= tok_right_of());
            assert(args.deep_view() =~= old_args + segment(old_rest[0], prevv));
            assert(args_from(old_rest, prevv) == segment(old_rest[0], prevv) + args_from(
                rest.deep_view(),
                Some(old_rest[0].output),
            ));
            assert(old_args + args_from(old_rest, prevv) =~= args.deep_view() + args_from(
                rest.deep_view(),
                Some(old_rest[0].output),
            ));
        }
    }
    proof {
        assert(args_from(rest.deep_view(), match last_output {
            None => None::<Seq<char>>,
            Some(p) => Some(p@),
        }) =~= Seq::<Seq<char>>::empty());
        assert(args.deep_view() =~= args_spec(full));
    }
    args
}

/// The token block of screen `i` within a build: primary for the first
/// screen, right-of the predecessor for every later one.
pub open spec fn segment_at(s: Seq<ScreenView>, i: int) -> Seq<Seq<char>> {
    segment(
        s[i],
        if i == 0 {
            None
        } else {
            Some(s[i - 1].output)
        },
    )
}

proof fn lemma_args_from_segments(s: Seq<ScreenView>, prev: Option<Seq<char>>)
    ensures
        args_from(s, prev) == Seq::new(
            s.len(),
            |i: int|
                segment(
                    s[i],
                    if i == 0 {
                        prev
                    } else {
                        Some(s[i - 1].output)
                    },
                ),
        ).flatten(),
    decreases s.len(),
{
    let segs = Seq::new(
        s.len(),
        |i: int|
            segment(
                s[i],
                if i == 0 {
                    prev
                } else {
                    Some(s[i - 1].output)
                },
            ),
    );
    if s.len() == 0 {
        assert(segs.flatten() =~= Seq::<Seq<char>>::empty());
    } else {
        let tail = s.skip(1);
        lemma_args_from_segments(tail, Some(s[0].output));
        let tsegs = Seq::new(
            tail.len(),
            |i: int|
                segment(
                    tail[i],
                    if i == 0 {
                        Some(s[0].output)
                    } else {
                        Some(tail[i - 1].output)
                    },
                ),
        );
        assert(segs.drop_first() =~= tsegs);
        assert(segs.flatten() == segs.first() + segs.drop_first().flatten());
        assert(segs.first() == segment(s[0], prev));
    }
}

/// Exactly one primary: the first screen's token block ends with
/// `--primary`; every later screen's block ends with `--right-of` and the
/// name of the screen immediately before it — never an earlier one. The
/// whole build is these blocks in input order.
pub proof fn lemma_build_layout(s: Seq<ScreenView>)
    ensures
        args_spec(s) == Seq::new(s.len(), |i: int| segment_at(s, i)).flatten(),
        s.len() > 0 ==> segment_at(s, 0).last() == tok_primary(),
        forall|i: int|
            1 <= i < s.len() ==> (#[trigger] segment_at(s, i)).last() == s[i - 1].output
                && segment_at(s, i)[segment_at(s, i).len() - 2] == tok_right_of(),
{
    lemma_args_from_segments(s, None);
    assert(Seq::new(s.len(), |i: int| segment_at(s, i)) =~= Seq::new(
        s.len(),
        |i: int|
            segment(
                s[i],
                if i == 0 {
                    None
                } else {
                    Some(s[i - 1].output)
                },
            ),
    ));
}

/// The builder is a pure function: what it emits is fully determined by the
/// screen sequence, so two builds of equal sequences agree token for token.
pub proof fn lemma_build_pure(a: Seq<ScreenView>, b: Seq<ScreenView>)
    requires
        a == b,
    ensures
        args_spec(a) == args_spec(b),
{
}

} // verus!
