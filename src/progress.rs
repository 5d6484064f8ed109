//! The progress lines that a headless run prints and that the batch driver
//! reads: `BATCH_PROGRESS SWEEP <done> <total> <temperature>` and
//! `BATCH_PROGRESS TC <done> <total>`; any other line is a log message.
use vstd::prelude::*;
use crate::text::{char_is_space, count_of, decimal, decimal_text, is_space, parse_count, trim, trimmed};

verus! {

/// The whitespace-separated words of `s`, as `str::split_whitespace` gives them.
pub open spec fn words(s: Seq<char>) -> Seq<Seq<char>>
    decreases s.len(),
{
    if s.len() == 0 {
        Seq::empty()
    } else {
        let w = words(s.drop_last());
        let c = s.last();
        if is_space(c) {
            w
        } else if s.len() >= 2 && !is_space(s[s.len() - 2]) {
            w.update(w.len() - 1, w.last().push(c))
        } else {
            w.push(seq![c])
        }
    }
}

/// Splits `s` into its whitespace-separated words.
pub fn split_words(s: &str) -> (r: Vec<String>)
    ensures
        r@.map_values(|w: String| w@) == words(s@),
{
    let n = s.unicode_len();
    let mut out: Vec<String> = Vec::new();
    let mut i: usize = 0;
    while i < n
        invariant
            n == s@.len(),
            i <= n,
            0 < i < n ==> is_space(s@[i - 1]) || is_space(s@[i as int]),
            out@.map_values(|w: String| w@) == words(s@.subrange(0, i as int)),
        decreases n - i,
    {
        if char_is_space(s.get_char(i)) {
            proof {
                let p = s@.subrange(0, i as int + 1);
                assert(p.drop_last() =~= s@.subrange(0, i as int));
            }
            i = i + 1;
        } else {
            let start = i;
            while i < n && !char_is_space(s.get_char(i))
                invariant
                    n == s@.len(),
                    start < n,
                    start <= i <= n,
                    !is_space(s@[start as int]),
                    start > 0 ==> is_space(s@[start - 1]),
                    forall|k: int| start <= k < i ==> !is_space(#[trigger] s@[k]),
                    i > start ==> out@.map_values(|w: String| w@).push(s@.subrange(
                        start as int,
                        i as int,
                    )) == words(s@.subrange(0, i as int)),
                    i == start ==> out@.map_values(|w: String| w@) == words(
                        s@.subrange(0, i as int),
                    ),
                decreases n - i,
            {
                proof {
                    let p = s@.subrange(0, i as int + 1);
                    assert(p.drop_last() =~= s@.subrange(0, i as int));
                    assert(p.last() == s@[i as int]);
                    if i > start {
                        assert(p[p.len() - 2] == s@[i - 1]);
                        assert(s@.subrange(start as int, i as int + 1) =~= s@.subrange(
                            start as int,
                            i as int,
                        ).push(s@[i as int]));
                    } else {
                        if i > 0 {
                            assert(p[p.len() - 2] == s@[i - 1]);
                        }
                        assert(s@.subrange(start as int, i as int + 1) =~= seq![s@[i as int]]);
                    }
                }
                i = i + 1;
            }
            let ghost before = out@.map_values(|w: String| w@);
            out.push(String::from_str(s.substring_char(start, i)));
            proof {
                assert(out@.map_values(|w: String| w@) =~= before.push(s@.subrange(
                    start as int,
                    i as int,
                )));
            }
        }
    }
    proof {
        assert(s@.subrange(0, n as int) =~= s@);
    }
    out
}

/// What a line of a headless run's output tells the batch driver.
#[derive(Clone, Copy, Debug, PartialEq, Eq, Structural)]
pub enum ProgressLine {
    /// Temperatures swept so far, of how many.
    Sweep(usize, usize),
    /// Trial critical temperatures fitted so far, of how many.
    Tc(usize, usize),
    /// A progress line without a readable count.
    Unreadable,
    /// A log message, blank or not.
    Log(bool),
}

pub open spec fn progress_prefix() -> Seq<char> {
    "BATCH_PROGRESS "@
}

/// How a line is read: after the `BATCH_PROGRESS ` prefix, at least three
/// words, of which the first names the stage and the next two are counts.
pub open spec fn progress_of(line: Seq<char>) -> ProgressLine {
    let p = progress_prefix();
    if line.len() >= p.len() && line.subrange(0, p.len() as int) == p {
        let parts = words(line.subrange(p.len() as int, line.len() as int));
        if parts.len() >= 3 && count_of(parts[1]) is Some && count_of(parts[2]) is Some {
            let d = count_of(parts[1])->Some_0 as usize;
            let t = count_of(parts[2])->Some_0 as usize;
            if parts[0] == "SWEEP"@ {
                ProgressLine::Sweep(d, t)
            } else if parts[0] == "TC"@ {
                ProgressLine::Tc(d, t)
            } else {
                ProgressLine::Unreadable
            }
        } else {
            ProgressLine::Unreadable
        }
    } else {
        ProgressLine::Log(trimmed(line).len() == 0)
    }
}

/// Reads one output line of a headless run.
pub fn parse_progress_line(line: &str) -> (r: ProgressLine)
    ensures
        r == progress_of(line@),
{
    let prefix = "BATCH_PROGRESS ";
    proof {
        reveal_strlit("BATCH_PROGRESS ");
    }
    let n = line.unicode_len();
    let pn = prefix.unicode_len();
    let is_progress = n >= pn && String::from_str(line.substring_char(0, pn)) == String::from_str(
        prefix,
    );
    if !is_progress {
        return ProgressLine::Log(trim(line).unicode_len() == 0);
    }
    let parts = split_words(line.substring_char(pn, n));
    let ghost views = parts@.map_values(|w: String| w@);
    if parts.len() < 3 {
        return ProgressLine::Unreadable;
    }
    proof {
        assert(views[1] == parts@[1]@);
        assert(views[2] == parts@[2]@);
        assert(views[0] == parts@[0]@);
    }
    match (parse_count(parts[1].as_str()), parse_count(parts[2].as_str())) {
        (Some(d), Some(t)) => {
            if parts[0] == String::from_str("SWEEP") {
                ProgressLine::Sweep(d, t)
            } else if parts[0] == String::from_str("TC") {
                ProgressLine::Tc(d, t)
            } else {
                ProgressLine::Unreadable
            }
        },
        _ => ProgressLine::Unreadable,
    }
}

/// `BATCH_PROGRESS TC <done> <total>`.
pub fn tc_progress_line(done: usize, total: usize) -> (r: String)
    ensures
        r@ == "BATCH_PROGRESS TC "@ + decimal_text(done as nat) + " "@ + decimal_text(total as nat),
{
    let mut r = String::from_str("BATCH_PROGRESS TC ");
    r.append(decimal(done).as_str());
    r.append(" ");
    r.append(decimal(total).as_str());
    r
}

/// `BATCH_PROGRESS SWEEP <done> <total> `, to be followed by the temperature.
pub fn sweep_progress_head(done: usize, total: usize) -> (r: String)
    ensures
        r@ == "BATCH_PROGRESS SWEEP "@ + decimal_text(done as nat) + " "@ + decimal_text(
            total as nat,
        ) + " "@,
{
    let mut r = String::from_str("BATCH_PROGRESS SWEEP ");
    r.append(decimal(done).as_str());
    r.append(" ");
    r.append(decimal(total).as_str());
    r.append(" ");
    r
}

pub open spec fn no_space(w: Seq<char>) -> bool {
    forall|k: int| 0 <= k < w.len() ==> !is_space(#[trigger] w[k])
}

/// A word after whitespace (or at the start) is a new word.
proof fn lemma_words_append_word(x: Seq<char>, w: Seq<char>)
    requires
        x.len() == 0 || is_space(x.last()),
        w.len() > 0,
        no_space(w),
    ensures
        words(x + w) == words(x).push(w),
    decreases w.len(),
{
    let u = w.drop_last();
    let c = w.last();
    assert((x + w).drop_last() =~= x + u);
    assert((x + w).last() == c);
    assert(!is_space(w[w.len() - 1]));
    if u.len() == 0 {
        assert(x + u =~= x);
        if x.len() > 0 {
            assert((x + w)[(x + w).len() - 2] == x.last());
        }
        assert(seq![c] =~= w);
    } else {
        assert(no_space(u)) by {
            assert forall|k: int| 0 <= k < u.len() implies !is_space(#[trigger] u[k]) by {
                assert(u[k] == w[k]);
            }
        }
        lemma_words_append_word(x, u);
        assert((x + w)[(x + w).len() - 2] == u.last());
        assert(!is_space(w[u.len() - 1]));
        assert(u.push(c) =~= w);
        assert(words(x).push(u).update(words(x).len() as int, u.push(c)) =~= words(x).push(w));
    }
}

proof fn lemma_words_append_space(x: Seq<char>)
    ensures
        words(x.push(' ')) == words(x),
{
    assert(x.push(' ').drop_last() =~= x);
}

proof fn lemma_decimal_word(n: usize)
    ensures
        decimal_text(n as nat).len() > 0,
        no_space(decimal_text(n as nat)),
        count_of(decimal_text(n as nat)) == Some(n as int),
{
    crate::text::lemma_decimal_round_trip(n);
    let t = decimal_text(n as nat);
    assert forall|k: int| 0 <= k < t.len() implies !is_space(#[trigger] t[k]) by {
        assert(crate::text::is_digit(t[k]));
    }
}

/// The batch driver reads back the counts that a Tc progress line carries.
pub proof fn lemma_tc_progress_round_trip(done: usize, total: usize)
    ensures
        progress_of(
            "BATCH_PROGRESS TC "@ + decimal_text(done as nat) + " "@ + decimal_text(total as nat),
        ) == ProgressLine::Tc(done, total),
{
    reveal_strlit("BATCH_PROGRESS TC ");
    reveal_strlit("BATCH_PROGRESS ");
    reveal_strlit("TC");
    reveal_strlit(" ");
    reveal_strlit("SWEEP");
    let d = decimal_text(done as nat);
    let t = decimal_text(total as nat);
    lemma_decimal_word(done);
    lemma_decimal_word(total);
    let line = "BATCH_PROGRESS TC "@ + d + " "@ + t;
    let p = progress_prefix();
    assert(line.subrange(0, p.len() as int) =~= p);
    let tc = "TC"@;
    assert(no_space(tc));
    let rest = line.subrange(p.len() as int, line.len() as int);
    assert(rest =~= Seq::<char>::empty() + tc + seq![' '] + d + seq![' '] + t);
    lemma_words_append_word(Seq::<char>::empty(), tc);
    assert(Seq::<char>::empty() + tc =~= tc);
    lemma_words_append_space(tc);
    assert(tc.push(' ') =~= tc + seq![' ']);
    lemma_words_append_word(tc + seq![' '], d);
    lemma_words_append_space(tc + seq![' '] + d);
    assert((tc + seq![' '] + d).push(' ') =~= tc + seq![' '] + d + seq![' ']);
    lemma_words_append_word(tc + seq![' '] + d + seq![' '], t);
    assert(Seq::<char>::empty() + tc + seq![' '] + d + seq![' '] + t =~= tc + seq![' '] + d + seq![' '] + t);
    let parts = words(rest);
    assert(parts =~= seq![tc, d, t]);
    assert(parts[0] != "SWEEP"@) by {
        assert(parts[0].len() != "SWEEP"@.len());
    }
}

} // verus!
