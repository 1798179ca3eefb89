//! The confirmed-input log of one player and the prediction rule.
//!
//! A log is a sequence indexed by frame number.  A slot is `Some(bits)` once
//! the owning peer's true input for that frame is known (confirmed) and
//! `None` while it is still outstanding.  The effective input of a frame is
//! the confirmed value if there is one, and otherwise a prediction: the
//! nearest confirmed value at an earlier frame, or zero when none exists.

use vstd::prelude::*;

verus! {

/// The confirmed value at frame `i`, reading past the end as "not confirmed".
pub open spec fn entry(s: Seq<Option<u8>>, i: int) -> Option<u8> {
    if 0 <= i < s.len() {
        s[i]
    } else {
        None
    }
}

/// The effective input for frame `f`: the confirmed value, or the prediction
/// (nearest confirmed value below `f`, defaulting to zero).
pub open spec fn input_for(s: Seq<Option<u8>>, f: int) -> u8
    decreases f,
{
    if f < 0 {
        0
    } else if entry(s, f) is Some {
        entry(s, f).unwrap()
    } else if f == 0 {
        0
    } else {
        input_for(s, f - 1)
    }
}

/// The confirmation horizon from `i` on: the first frame at or after `i`
/// that is not confirmed.
pub open spec fn horizon_from(s: Seq<Option<u8>>, i: int) -> int
    decreases s.len() - i,
{
    if i < 0 || i >= s.len() {
        i
    } else if s[i] is None {
        i
    } else {
        horizon_from(s, i + 1)
    }
}

/// The player's confirmation horizon: every frame below it is confirmed.
pub open spec fn horizon(s: Seq<Option<u8>>) -> int {
    horizon_from(s, 0)
}

proof fn lemma_input_for_agree_at(s1: Seq<Option<u8>>, s2: Seq<Option<u8>>, j: int, f: int)
    requires
        forall|i: int| i != j ==> entry(s1, i) == entry(s2, i),
        f < j,
    ensures
        input_for(s1, f) == input_for(s2, f),
    decreases f,
{
    if f >= 0 {
        assert(entry(s1, f) == entry(s2, f));
        if entry(s1, f) is Some || f == 0 {
        } else {
            lemma_input_for_agree_at(s1, s2, j, f - 1);
        }
    }
}

/// Confirming an input at frame `j` does not change the effective input of
/// any earlier frame: prediction only ever looks backwards.
pub proof fn lemma_confirm_preserves_below(s1: Seq<Option<u8>>, s2: Seq<Option<u8>>, j: int)
    requires
        forall|i: int| i != j ==> entry(s1, i) == entry(s2, i),
    ensures
        forall|f: int| f < j ==> input_for(s1, f) == input_for(s2, f),
{
    assert forall|f: int| f < j implies input_for(s1, f) == input_for(s2, f) by {
        lemma_input_for_agree_at(s1, s2, j, f);
    }
}

proof fn lemma_confirm_matching_at(s1: Seq<Option<u8>>, s2: Seq<Option<u8>>, j: int, f: int)
    requires
        forall|i: int| i != j ==> entry(s1, i) == entry(s2, i),
        entry(s1, j) is None,
        entry(s2, j) == Some(input_for(s1, j)),
        j >= 0,
    ensures
        input_for(s1, f) == input_for(s2, f),
    decreases f,
{
    if f < j {
        lemma_input_for_agree_at(s1, s2, j, f);
    } else if f == j {
    } else {
        assert(entry(s1, f) == entry(s2, f));
        if entry(s1, f) is Some {
        } else {
            lemma_confirm_matching_at(s1, s2, j, f - 1);
        }
    }
}

/// Confirming an input that equals its own prediction changes no effective
/// input at all: the log describes the very same input schedule.
pub proof fn lemma_confirm_matching(s1: Seq<Option<u8>>, s2: Seq<Option<u8>>, j: int)
    requires
        forall|i: int| i != j ==> entry(s1, i) == entry(s2, i),
        entry(s1, j) is None,
        entry(s2, j) == Some(input_for(s1, j)),
        j >= 0,
    ensures
        forall|f: int| input_for(s1, f) == input_for(s2, f),
{
    assert forall|f: int| input_for(s1, f) == input_for(s2, f) by {
        lemma_confirm_matching_at(s1, s2, j, f);
    }
}

/// Reads the confirmed slot of frame `f`.
pub fn log_entry(log: &Vec<Option<u8>>, f: usize) -> (r: Option<u8>)
    ensures
        r == entry(log@, f as int),
{
    if f < log.len() {
        log[f]
    } else {
        None
    }
}

/// Writes the confirmed slot of frame `f`, growing the log as needed.
pub fn log_confirm(log: &mut Vec<Option<u8>>, f: usize, v: u8)
    requires
        f < usize::MAX,
    ensures
        entry(final(log)@, f as int) == Some(v),
        forall|i: int| i != f ==> entry(final(log)@, i) == entry(old(log)@, i),
        final(log)@.len() >= old(log)@.len(),
{
    let ghost olog = log@;
    while log.len() <= f
        invariant
            f < usize::MAX,
            log@.len() >= olog.len(),
            forall|i: int| 0 <= i < olog.len() ==> log@[i] == olog[i],
            forall|i: int| olog.len() <= i < log@.len() ==> log@[i] is None,
        decreases f + 1 - log@.len(),
    {
        log.push(None);
    }
    log[f] = Some(v);
    proof {
        assert forall|i: int| i != f implies entry(log@, i) == entry(olog, i) by {
            if 0 <= i < olog.len() {
            } else {
            }
        }
    }
}

/// Computes the effective (confirmed-or-predicted) input for frame `f`.
pub fn effective_input(log: &Vec<Option<u8>>, f: usize) -> (r: u8)
    ensures
        r == input_for(log@, f as int),
{
    let mut g: usize = f;
    loop
        invariant
            g <= f,
            input_for(log@, f as int) == input_for(log@, g as int),
        decreases g,
    {
        if g < log.len() {
            match log[g] {
                Some(v) => {
                    return v;
                },
                None => {},
            }
        }
        if g == 0 {
            return 0;
        }
        g = g - 1;
    }
}

/// Computes the player's confirmation horizon.
pub fn horizon_exec(log: &Vec<Option<u8>>) -> (r: usize)
    ensures
        r as int == horizon(log@),
{
    let mut i: usize = 0;
    while i < log.len() && log[i].is_some()
        invariant
            i <= log@.len(),
            horizon(log@) == horizon_from(log@, i as int),
        decreases log@.len() - i,
    {
        i = i + 1;
    }
    i
}

} // verus!
