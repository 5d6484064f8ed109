//! Reading back a written parameter block gives the parameters written.
use vstd::prelude::*;
use crate::params::{state_of_label, InitialState};
use crate::summary::{
    count_in, entry_line, first_missing, join_lines, key_index, key_index_from, key_text,
    scan, scan_entry, scan_line, scan_start, segments, summary_lines, summary_outcome,
    total_bonds_spec, ScanState, SummaryError, SummaryFields, KEY_COUNT, KEY_SAMPLES,
};
use crate::text::{
    count_of, decimal_text, is_space, lemma_decimal_round_trip, lemma_lead_is_first, trimmed,
};

verus! {

pub open spec fn no_char(s: Seq<char>, c: char) -> bool {
    forall|k: int| 0 <= k < s.len() ==> #[trigger] s[k] != c
}

pub open spec fn all_spaces(s: Seq<char>) -> bool {
    forall|k: int| 0 <= k < s.len() ==> #[trigger] s[k] == ' '
}

/// Text that survives a line of the summary unchanged: not empty, no
/// surrounding whitespace, no line break.
pub open spec fn clean_text(v: Seq<char>) -> bool {
    &&& v.len() > 0
    &&& !is_space(v[0])
    &&& !is_space(v.last())
    &&& no_char(v, '\n')
}

proof fn lemma_segments_nonempty(s: Seq<char>)
    ensures
        segments(s).len() >= 1,
    decreases s.len(),
{
    if s.len() > 0 {
        lemma_segments_nonempty(s.drop_last());
    }
}

proof fn lemma_segments_chars(s: Seq<char>, x: Seq<char>)
    requires
        no_char(x, '\n'),
    ensures
        segments(s + x) == segments(s).update(
            segments(s).len() - 1,
            segments(s).last() + x,
        ),
    decreases x.len(),
{
    lemma_segments_nonempty(s);
    if x.len() == 0 {
        assert(s + x =~= s);
        assert(segments(s).last() + x =~= segments(s).last());
        assert(segments(s).update(segments(s).len() - 1, segments(s).last()) =~= segments(s));
    } else {
        let y = x.drop_last();
        let c = x.last();
        assert(no_char(y, '\n')) by {
            assert forall|k: int| 0 <= k < y.len() implies #[trigger] y[k] != '\n' by {
                assert(y[k] == x[k]);
            }
        }
        lemma_segments_chars(s, y);
        lemma_segments_nonempty(s + y);
        assert((s + x).drop_last() =~= s + y);
        assert((s + x).last() == c);
        assert(c != '\n') by {
            assert(x[x.len() - 1] != '\n');
        }
        let p = segments(s);
        assert((p.last() + y).push(c) =~= p.last() + x);
        assert(segments(s + x) =~= p.update(p.len() - 1, p.last() + x));
    }
}

proof fn lemma_segments_join(ls: Seq<Seq<char>>)
    requires
        forall|k: int| 0 <= k < ls.len() ==> no_char(#[trigger] ls[k], '\n'),
    ensures
        segments(join_lines(ls)) == ls.push(Seq::<char>::empty()),
    decreases ls.len(),
{
    if ls.len() == 0 {
        assert(segments(Seq::<char>::empty()) =~= seq![Seq::<char>::empty()]);
        assert(ls.push(Seq::<char>::empty()) =~= seq![Seq::<char>::empty()]);
    } else {
        let prev = ls.drop_last();
        let x = ls.last();
        assert forall|k: int| 0 <= k < prev.len() implies no_char(#[trigger] prev[k], '\n') by {
            assert(prev[k] == ls[k]);
        }
        lemma_segments_join(prev);
        let a = join_lines(prev) + x;
        lemma_segments_chars(join_lines(prev), x);
        assert(Seq::<char>::empty() + x =~= x);
        assert(segments(a) =~= prev.push(x));
        assert(join_lines(ls) =~= a.push('\n'));
        assert(a.push('\n').drop_last() =~= a);
        assert(prev.push(x) =~= ls);
    }
}

/// `a + b + c` trims to `b` when `a` and `c` are spaces and `b` has no
/// whitespace at its ends.
proof fn lemma_trim_padded(a: Seq<char>, b: Seq<char>, c: Seq<char>)
    requires
        all_spaces(a),
        all_spaces(c),
        b.len() > 0,
        !is_space(b[0]),
        !is_space(b.last()),
    ensures
        trimmed(a + b + c) == b,
{
    let s = a + b + c;
    let n = s.len();
    assert forall|k: int| 0 <= k < a.len() implies is_space(#[trigger] s[k]) by {
        assert(s[k] == a[k]);
    }
    assert(s[a.len() as int] == b[0]);
    lemma_lead_is_first(s, a.len() as int);
    let rv = s.reverse();
    assert forall|k: int| 0 <= k < c.len() implies is_space(#[trigger] rv[k]) by {
        assert(rv[k] == s[n - 1 - k]);
        assert(s[n - 1 - k] == c[c.len() - 1 - k]);
    }
    assert(rv[c.len() as int] == s[n - 1 - c.len()]);
    assert(s[n - 1 - c.len()] == b[b.len() - 1]);
    lemma_lead_is_first(rv, c.len() as int);
    assert(s.subrange(a.len() as int, n - c.len()) =~= b);
}

/// A line without `=` is skipped.
proof fn lemma_scan_plain_line(st: ScanState, h: Seq<char>)
    requires
        st.error is None,
        no_char(h, '='),
    ensures
        scan_line(st, h) == st,
{
    let t = trimmed(h);
    crate::text::lemma_lead_bounds(h);
    crate::text::lemma_lead_bounds(h.reverse());
    assert forall|k: int| 0 <= k < t.len() implies #[trigger] t[k] != '=' by {
        assert(t[k] == h[crate::text::lead(h) + k]);
    }
    crate::summary::lemma_eq_pos_public(t, t.len() as int);
}

proof fn lemma_scan_entry_line(st: ScanState, key: Seq<char>, pad: Seq<char>, v: Seq<char>)
    requires
        st.error is None,
        key.len() > 0,
        !is_space(key[0]),
        !is_space(key.last()),
        no_char(key, '='),
        all_spaces(pad),
        v.len() > 0,
        !is_space(v[0]),
        !is_space(v.last()),
    ensures
        scan_line(st, entry_line(key, pad, v)) == scan_entry(st, key, v),
{
    reveal_strlit("= ");
    let line = entry_line(key, pad, v);
    let e = (key.len() + pad.len()) as int;
    let n = line.len();
    assert(line =~= key + pad + seq!['=', ' '] + v);
    lemma_trim_padded(Seq::empty(), line, Seq::empty());
    assert(Seq::<char>::empty() + line + Seq::<char>::empty() =~= line);
    assert(line[0] == key[0]);
    assert(line[n - 1] == v[v.len() - 1]);
    assert(trimmed(line) == line);
    assert forall|k: int| 0 <= k < e implies #[trigger] line[k] != '=' by {
        if k < key.len() {
            assert(line[k] == key[k]);
        } else {
            assert(line[k] == pad[k - key.len()]);
        }
    }
    assert(line[e] == '=');
    crate::summary::lemma_eq_pos_public(line, e);
    assert(line.subrange(0, e) =~= Seq::<char>::empty() + key + pad);
    lemma_trim_padded(Seq::empty(), key, pad);
    assert(line.subrange(e + 1, n as int) =~= seq![' '] + v + Seq::<char>::empty());
    assert(all_spaces(seq![' ']));
    lemma_trim_padded(seq![' '], v, Seq::empty());
}

proof fn lemma_key_index_found(key: Seq<char>, j: int, k: int)
    requires
        0 <= j <= k < KEY_COUNT,
        key_text(k) == key,
        forall|q: int| j <= q < k ==> key_text(q) != key,
    ensures
        key_index_from(key, j) == k,
    decreases k - j,
{
    if j < k {
        lemma_key_index_found(key, j + 1, k);
    }
}

proof fn lemma_key_index_absent(key: Seq<char>, j: int)
    requires
        0 <= j <= KEY_COUNT,
        forall|q: int| j <= q < KEY_COUNT ==> key_text(q) != key,
    ensures
        key_index_from(key, j) == KEY_COUNT,
    decreases KEY_COUNT - j,
{
    if j < KEY_COUNT {
        lemma_key_index_absent(key, j + 1);
    }
}


proof fn lemma_key_line(st: ScanState, k: int, pad: Seq<char>, v: Seq<char>)
    requires
        st.error is None,
        0 <= k < KEY_COUNT,
        all_spaces(pad),
        v.len() > 0,
        !is_space(v[0]),
        !is_space(v.last()),
    ensures
        key_index(key_text(k)) == k,
        scan_line(st, entry_line(key_text(k), pad, v)) == scan_entry(st, key_text(k), v),
{
    reveal_strlit("L");
    reveal_strlit("J");
    reveal_strlit("p");
    reveal_strlit("H");
    reveal_strlit("Initial state");
    reveal_strlit("MC steps");
    reveal_strlit("Therm steps");
    reveal_strlit("Stride");
    reveal_strlit("T_start");
    reveal_strlit("T_end");
    reveal_strlit("T_step");
    reveal_strlit("Tc_step");
    reveal_strlit("Disorder samples");
    let key = key_text(k);
    assert(key.len() > 0 && !is_space(key[0]) && !is_space(key.last()) && no_char(key, '='));
    assert forall|q: int| 0 <= q < k implies key_text(q) != key by {
        if key_text(q) == key {
            assert(key_text(q).len() == key.len());
            assert(key_text(q)[0] == key[0]);
            assert(key_text(q)[1] == key[1]);
        }
    }
    lemma_key_index_found(key, 0, k);
    lemma_scan_entry_line(st, key, pad, v);
}

proof fn lemma_unknown_line(st: ScanState, key: Seq<char>, pad: Seq<char>, v: Seq<char>)
    requires
        st.error is None,
        key == "Total bonds"@ || key == "-J bonds (rigid)"@,
        all_spaces(pad),
        v.len() > 0,
        !is_space(v[0]),
        !is_space(v.last()),
    ensures
        scan_line(st, entry_line(key, pad, v)) == st,
{
    reveal_strlit("L");
    reveal_strlit("J");
    reveal_strlit("p");
    reveal_strlit("H");
    reveal_strlit("Initial state");
    reveal_strlit("MC steps");
    reveal_strlit("Therm steps");
    reveal_strlit("Stride");
    reveal_strlit("T_start");
    reveal_strlit("T_end");
    reveal_strlit("T_step");
    reveal_strlit("Tc_step");
    reveal_strlit("Disorder samples");
    reveal_strlit("Total bonds");
    reveal_strlit("-J bonds (rigid)");
    assert(key.len() > 0 && !is_space(key[0]) && !is_space(key.last()) && no_char(key, '='));
    assert forall|q: int| 0 <= q < KEY_COUNT implies key_text(q) != key by {
        if key_text(q) == key {
            assert(key_text(q).len() == key.len());
            assert(key_text(q)[1] == key[1]);
        }
    }
    lemma_key_index_absent(key, 0);
    lemma_scan_entry_line(st, key, pad, v);
}

proof fn lemma_scan_take(segs: Seq<Seq<char>>, k: int)
    requires
        0 <= k < segs.len(),
    ensures
        scan(segs.take(k + 1)) == scan_line(scan(segs.take(k)), segs[k]),
{
    assert(segs.take(k + 1).drop_last() =~= segs.take(k));
}

proof fn lemma_all_present(slots: Seq<Option<Seq<char>>>, j: int)
    requires
        0 <= j <= KEY_SAMPLES,
        forall|q: int| j <= q < KEY_SAMPLES ==> #[trigger] slots[q] is Some,
    ensures
        first_missing(slots, j) == KEY_SAMPLES,
    decreases KEY_SAMPLES - j,
{
    if j < KEY_SAMPLES {
        lemma_all_present(slots, j + 1);
    }
}

proof fn lemma_entry_no_newline(key: Seq<char>, pad: Seq<char>, v: Seq<char>)
    requires
        no_char(key, '\n'),
        all_spaces(pad),
        no_char(v, '\n'),
    ensures
        no_char(entry_line(key, pad, v), '\n'),
{
    reveal_strlit("= ");
    let line = entry_line(key, pad, v);
    assert(line =~= key + pad + seq!['=', ' '] + v);
    assert forall|k: int| 0 <= k < line.len() implies #[trigger] line[k] != '\n' by {
        if k < key.len() {
            assert(line[k] == key[k]);
        } else if k < key.len() + pad.len() {
            assert(line[k] == pad[k - key.len()]);
        } else if k >= key.len() + pad.len() + 2 {
            assert(line[k] == v[k - key.len() - pad.len() - 2]);
        }
    }
}

proof fn lemma_decimal_line_value(n: usize)
    ensures
        decimal_text(n as nat).len() > 0,
        !is_space(decimal_text(n as nat)[0]),
        !is_space(decimal_text(n as nat).last()),
        no_char(decimal_text(n as nat), '\n'),
        count_of(decimal_text(n as nat)) == Some(n as int),
{
    lemma_decimal_round_trip(n);
    let t = decimal_text(n as nat);
    assert forall|k: int| 0 <= k < t.len() implies #[trigger] t[k] != '\n' by {
        assert(crate::text::is_digit(t[k]));
    }
}

proof fn lemma_label_value(s: InitialState)
    ensures
        s.label_view().len() > 0,
        !is_space(s.label_view()[0]),
        !is_space(s.label_view().last()),
        no_char(s.label_view(), '\n'),
        state_of_label(trimmed(s.label_view())) == Some(s),
{
    reveal_strlit("Random");
    reveal_strlit("All Up  (+1)");
    reveal_strlit("All Down (-1)");
    lemma_trim_padded(Seq::empty(), s.label_view(), Seq::empty());
    assert(Seq::<char>::empty() + s.label_view() + Seq::<char>::empty() =~= s.label_view());
}

/// Whether `g` holds what was written from `f`: every field the same, except
/// that a disorder-sample count below one is read as one.
pub open spec fn read_back_matches(f: SummaryFields, g: SummaryFields) -> bool {
    &&& g.l == f.l
    &&& g.mc_steps == f.mc_steps
    &&& g.therm_steps == f.therm_steps
    &&& g.stride == f.stride
    &&& g.initial_state == f.initial_state
    &&& g.j@ == f.j@
    &&& g.p@ == f.p@
    &&& g.h@ == f.h@
    &&& g.t_start@ == f.t_start@
    &&& g.t_end@ == f.t_end@
    &&& g.t_step@ == f.t_step@
    &&& g.tc_step@ == f.tc_step@
    &&& g.sample_count == if f.sample_count >= 1 {
        f.sample_count
    } else {
        1
    }
}

pub open spec fn model_state(f: SummaryFields) -> ScanState {
    ScanState {
        slots: scan_start().slots.update(0, Some(decimal_text(f.l as nat))).update(1, Some(f.j@)).update(
            2,
            Some(f.p@),
        ).update(3, Some(f.h@)).update(4, Some(f.initial_state.label_view())),
        error: None,
    }
}

pub open spec fn mc_state(f: SummaryFields) -> ScanState {
    let s = model_state(f).slots.update(5, Some(decimal_text(f.mc_steps as nat))).update(
        6,
        Some(decimal_text(f.therm_steps as nat)),
    ).update(7, Some(decimal_text(f.stride as nat)));
    ScanState {
        slots: if f.sample_count >= 1 {
            s.update(12, Some(decimal_text(f.sample_count as nat)))
        } else {
            s
        },
        error: None,
    }
}

pub open spec fn final_state(f: SummaryFields) -> ScanState {
    ScanState {
        slots: mc_state(f).slots.update(8, Some(f.t_start@)).update(9, Some(f.t_end@)).update(
            10,
            Some(f.t_step@),
        ).update(11, Some(f.tc_step@)),
        error: None,
    }
}

pub open spec fn clean_fields(f: SummaryFields) -> bool {
    &&& clean_text(f.j@)
    &&& clean_text(f.p@)
    &&& clean_text(f.h@)
    &&& clean_text(f.t_start@)
    &&& clean_text(f.t_end@)
    &&& clean_text(f.t_step@)
    &&& clean_text(f.tc_step@)
}

proof fn lemma_lines_no_newline(f: SummaryFields, negated: usize)
    requires
        clean_fields(f),
    ensures
        forall|k: int|
            0 <= k < summary_lines(f, negated).len() ==> no_char(
                #[trigger] summary_lines(f, negated)[k],
                '\n',
            ),
{
    let ls = summary_lines(f, negated);
    reveal_strlit("L");
    reveal_strlit("J");
    reveal_strlit("p");
    reveal_strlit("H");
    reveal_strlit("Initial state");
    reveal_strlit("MC steps");
    reveal_strlit("Therm steps");
    reveal_strlit("Stride");
    reveal_strlit("T_start");
    reveal_strlit("T_end");
    reveal_strlit("T_step");
    reveal_strlit("Tc_step");
    reveal_strlit("Disorder samples");
    reveal_strlit("Model parameters");
    reveal_strlit("MC parameters");
    reveal_strlit("Scan parameters");
    reveal_strlit("Total bonds");
    reveal_strlit("-J bonds (rigid)");
    reveal_strlit(" ");
    reveal_strlit("  ");
    reveal_strlit("   ");
    reveal_strlit("      ");
    let tb = total_bonds_spec(f.l as int) as usize;
    lemma_decimal_line_value(f.l);
    lemma_decimal_line_value(tb);
    lemma_decimal_line_value(negated);
    lemma_decimal_line_value(f.mc_steps);
    lemma_decimal_line_value(f.therm_steps);
    lemma_decimal_line_value(f.stride);
    lemma_decimal_line_value(f.sample_count);
    lemma_label_value(f.initial_state);
    assert(total_bonds_spec(f.l as int) >= 0) by (nonlinear_arith);
    assert(all_spaces(" "@) && all_spaces("  "@) && all_spaces("   "@) && all_spaces("      "@));
    assert forall|k: int| 0 <= k < ls.len() implies no_char(#[trigger] ls[k], '\n') by {
        if k == 0 || k == 8 || k == 9 || k == 14 || k == 15 {
        } else if k == 1 {
            lemma_entry_no_newline(key_text(0), " "@, decimal_text(f.l as nat));
        } else if k == 2 {
            lemma_entry_no_newline(key_text(1), " "@, f.j@);
        } else if k == 3 {
            lemma_entry_no_newline(key_text(2), " "@, f.p@);
        } else if k == 4 {
            lemma_entry_no_newline(key_text(3), " "@, f.h@);
        } else if k == 5 {
            lemma_entry_no_newline(key_text(4), " "@, f.initial_state.label_view());
        } else if k == 6 {
            lemma_entry_no_newline("Total bonds"@, " "@, decimal_text(tb as nat));
        } else if k == 7 {
            lemma_entry_no_newline("-J bonds (rigid)"@, " "@, decimal_text(negated as nat));
        } else if k == 10 {
            lemma_entry_no_newline(key_text(5), "   "@, decimal_text(f.mc_steps as nat));
        } else if k == 11 {
            lemma_entry_no_newline(key_text(6), " "@, decimal_text(f.therm_steps as nat));
        } else if k == 12 {
            lemma_entry_no_newline(key_text(7), "      "@, decimal_text(f.stride as nat));
        } else if k == 13 {
            lemma_entry_no_newline(key_text(12), " "@, decimal_text(f.sample_count as nat));
        } else if k == 16 {
            lemma_entry_no_newline(key_text(8), " "@, f.t_start@);
        } else if k == 17 {
            lemma_entry_no_newline(key_text(9), "   "@, f.t_end@);
        } else if k == 18 {
            lemma_entry_no_newline(key_text(10), "  "@, f.t_step@);
        } else {
            lemma_entry_no_newline(key_text(11), " "@, f.tc_step@);
        }
    }
}

proof fn lemma_scan_model_part(f: SummaryFields, negated: usize, segs: Seq<Seq<char>>)
    requires
        clean_fields(f),
        segs == summary_lines(f, negated).push(Seq::<char>::empty()),
    ensures
        scan(segs.take(10)) == model_state(f),
{
    reveal_strlit("Model parameters");
    reveal_strlit("MC parameters");
    reveal_strlit(" ");
    assert(all_spaces(" "@));
    let tb = total_bonds_spec(f.l as int) as usize;
    assert(total_bonds_spec(f.l as int) >= 0) by (nonlinear_arith);
    lemma_decimal_line_value(f.l);
    lemma_decimal_line_value(tb);
    lemma_decimal_line_value(negated);
    lemma_label_value(f.initial_state);
    assert(segs.take(0) =~= Seq::<Seq<char>>::empty());
    let s0 = scan_start();
    lemma_scan_take(segs, 0);
    lemma_scan_plain_line(s0, segs[0]);
    lemma_scan_take(segs, 1);
    lemma_key_line(s0, 0, " "@, decimal_text(f.l as nat));
    let s2 = ScanState { slots: s0.slots.update(0, Some(decimal_text(f.l as nat))), ..s0 };
    assert(scan(segs.take(2)) == s2);
    lemma_scan_take(segs, 2);
    lemma_key_line(s2, 1, " "@, f.j@);
    let s3 = ScanState { slots: s2.slots.update(1, Some(f.j@)), ..s2 };
    assert(scan(segs.take(3)) == s3);
    lemma_scan_take(segs, 3);
    lemma_key_line(s3, 2, " "@, f.p@);
    let s4 = ScanState { slots: s3.slots.update(2, Some(f.p@)), ..s3 };
    assert(scan(segs.take(4)) == s4);
    lemma_scan_take(segs, 4);
    lemma_key_line(s4, 3, " "@, f.h@);
    let s5 = ScanState { slots: s4.slots.update(3, Some(f.h@)), ..s4 };
    assert(scan(segs.take(5)) == s5);
    lemma_scan_take(segs, 5);
    lemma_key_line(s5, 4, " "@, f.initial_state.label_view());
    let s6 = model_state(f);
    assert(scan(segs.take(6)) == s6);
    lemma_scan_take(segs, 6);
    lemma_unknown_line(s6, "Total bonds"@, " "@, decimal_text(tb as nat));
    lemma_scan_take(segs, 7);
    lemma_unknown_line(s6, "-J bonds (rigid)"@, " "@, decimal_text(negated as nat));
    lemma_scan_take(segs, 8);
    lemma_scan_plain_line(s6, segs[8]);
    lemma_scan_take(segs, 9);
    lemma_scan_plain_line(s6, segs[9]);
}

proof fn lemma_scan_mc_part(f: SummaryFields, negated: usize, segs: Seq<Seq<char>>)
    requires
        clean_fields(f),
        segs == summary_lines(f, negated).push(Seq::<char>::empty()),
        scan(segs.take(10)) == model_state(f),
    ensures
        scan(segs.take(16)) == mc_state(f),
{
    reveal_strlit("Scan parameters");
    reveal_strlit(" ");
    reveal_strlit("   ");
    reveal_strlit("      ");
    assert(all_spaces(" "@) && all_spaces("   "@) && all_spaces("      "@));
    lemma_decimal_line_value(f.mc_steps);
    lemma_decimal_line_value(f.therm_steps);
    lemma_decimal_line_value(f.stride);
    lemma_decimal_line_value(f.sample_count);
    let s6 = model_state(f);
    lemma_scan_take(segs, 10);
    lemma_key_line(s6, 5, "   "@, decimal_text(f.mc_steps as nat));
    let s7 = ScanState { slots: s6.slots.update(5, Some(decimal_text(f.mc_steps as nat))), ..s6 };
    assert(scan(segs.take(11)) == s7);
    lemma_scan_take(segs, 11);
    lemma_key_line(s7, 6, " "@, decimal_text(f.therm_steps as nat));
    let s8 = ScanState { slots: s7.slots.update(6, Some(decimal_text(f.therm_steps as nat))), ..s7 };
    assert(scan(segs.take(12)) == s8);
    lemma_scan_take(segs, 12);
    lemma_key_line(s8, 7, "      "@, decimal_text(f.stride as nat));
    let s9 = ScanState { slots: s8.slots.update(7, Some(decimal_text(f.stride as nat))), ..s8 };
    assert(scan(segs.take(13)) == s9);
    lemma_scan_take(segs, 13);
    lemma_key_line(s9, 12, " "@, decimal_text(f.sample_count as nat));
    let s10 = mc_state(f);
    assert(scan(segs.take(14)) == s10);
    lemma_scan_take(segs, 14);
    lemma_scan_plain_line(s10, segs[14]);
    lemma_scan_take(segs, 15);
    lemma_scan_plain_line(s10, segs[15]);
}

proof fn lemma_scan_scan_part(f: SummaryFields, negated: usize, segs: Seq<Seq<char>>)
    requires
        clean_fields(f),
        segs == summary_lines(f, negated).push(Seq::<char>::empty()),
        scan(segs.take(16)) == mc_state(f),
    ensures
        scan(segs) == final_state(f),
{
    reveal_strlit(" ");
    reveal_strlit("  ");
    reveal_strlit("   ");
    assert(all_spaces(" "@) && all_spaces("  "@) && all_spaces("   "@));
    let s10 = mc_state(f);
    lemma_scan_take(segs, 16);
    lemma_key_line(s10, 8, " "@, f.t_start@);
    let s11 = ScanState { slots: s10.slots.update(8, Some(f.t_start@)), ..s10 };
    assert(scan(segs.take(17)) == s11);
    lemma_scan_take(segs, 17);
    lemma_key_line(s11, 9, "   "@, f.t_end@);
    let s12 = ScanState { slots: s11.slots.update(9, Some(f.t_end@)), ..s11 };
    assert(scan(segs.take(18)) == s12);
    lemma_scan_take(segs, 18);
    lemma_key_line(s12, 10, "  "@, f.t_step@);
    let s13 = ScanState { slots: s12.slots.update(10, Some(f.t_step@)), ..s12 };
    assert(scan(segs.take(19)) == s13);
    lemma_scan_take(segs, 19);
    lemma_key_line(s13, 11, " "@, f.tc_step@);
    let s14 = final_state(f);
    assert(scan(segs.take(20)) == s14);
    lemma_scan_take(segs, 20);
    lemma_scan_plain_line(s14, segs[20]);
    assert(segs.take(21) =~= segs);
}

#[verifier::rlimit(60)]
proof fn lemma_final_outcome(f: SummaryFields, r: Result<SummaryFields, SummaryError>)
    requires
        summary_outcome(final_state(f), r),
    ensures
        match r {
            Ok(g) => read_back_matches(f, g),
            Err(_) => false,
        },
{
    lemma_decimal_line_value(f.l);
    lemma_decimal_line_value(f.mc_steps);
    lemma_decimal_line_value(f.therm_steps);
    lemma_decimal_line_value(f.stride);
    lemma_decimal_line_value(f.sample_count);
    lemma_label_value(f.initial_state);
    let slots = final_state(f).slots;
    assert forall|q: int| 0 <= q < KEY_SAMPLES implies #[trigger] slots[q] is Some by {}
    lemma_all_present(slots, 0);
    assert(slots[0] == Some(decimal_text(f.l as nat)));
    assert(slots[4] == Some(f.initial_state.label_view()));
    assert(slots[5] == Some(decimal_text(f.mc_steps as nat)));
    assert(slots[6] == Some(decimal_text(f.therm_steps as nat)));
    assert(slots[7] == Some(decimal_text(f.stride as nat)));
    assert(f.sample_count >= 1 ==> slots[12] == Some(decimal_text(f.sample_count as nat)));
    assert(f.sample_count < 1 ==> slots[12] is None);
    assert(final_state(f).error is None);
    match r {
        Ok(g) => {
            assert(crate::summary::fields_match(slots, g));
            assert(g.l == count_in(slots[0]));
            assert(g.sample_count == if slots[12] is Some {
                count_in(slots[12])
            } else {
                1
            });
        },
        Err(_) => {},
    }
}

/// Writing a run's parameters (see `render_parameters`) and reading the text
/// back (see `parse_summary`) gives the same parameters, whenever every
/// real-valued field is written as text without surrounding whitespace or
/// line breaks; a disorder-sample count below one comes back as one.
pub proof fn lemma_summary_round_trip(f: SummaryFields, negated: usize)
    requires
        clean_fields(f),
    ensures
        forall|r: Result<SummaryFields, SummaryError>|
            summary_outcome(scan(segments(join_lines(summary_lines(f, negated)))), r) ==> match r {
                Ok(g) => read_back_matches(f, g),
                Err(_) => false,
            },
{
    let ls = summary_lines(f, negated);
    lemma_lines_no_newline(f, negated);
    lemma_segments_join(ls);
    let segs = ls.push(Seq::<char>::empty());
    lemma_scan_model_part(f, negated, segs);
    lemma_scan_mc_part(f, negated, segs);
    lemma_scan_scan_part(f, negated, segs);
    assert(scan(segments(join_lines(ls))) == final_state(f));
    assert forall|r: Result<SummaryFields, SummaryError>|
        summary_outcome(scan(segments(join_lines(ls))), r) implies match r {
            Ok(g) => read_back_matches(f, g),
            Err(_) => false,
        } by {
        lemma_final_outcome(f, r);
    }
}

} // verus!
