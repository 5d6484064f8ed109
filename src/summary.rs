//! The `key = value` parameter block of a run summary: writing it, and
//! reading the parameters of an earlier run back from a summary's text.
//!
//! Real-valued parameters are carried as text; the caller turns them into
//! numbers.
use vstd::prelude::*;
use crate::params::{state_of_label, InitialState};
use crate::text::{count_of, decimal, decimal_text, parse_count, trim, trimmed};

verus! {

/// Number of keys the reader knows.
pub const KEY_COUNT: usize = 13;

/// Position of the optional `Disorder samples` key; every key before it is
/// required.
pub const KEY_SAMPLES: usize = 12;

pub const KEY_L: usize = 0;
pub const KEY_J: usize = 1;
pub const KEY_P: usize = 2;
pub const KEY_H: usize = 3;
pub const KEY_INITIAL_STATE: usize = 4;
pub const KEY_MC_STEPS: usize = 5;
pub const KEY_THERM_STEPS: usize = 6;
pub const KEY_STRIDE: usize = 7;
pub const KEY_T_START: usize = 8;
pub const KEY_T_END: usize = 9;
pub const KEY_T_STEP: usize = 10;
pub const KEY_TC_STEP: usize = 11;

pub open spec fn key_text(k: int) -> Seq<char> {
    if k == 0 {
        "L"@
    } else if k == 1 {
        "J"@
    } else if k == 2 {
        "p"@
    } else if k == 3 {
        "H"@
    } else if k == 4 {
        "Initial state"@
    } else if k == 5 {
        "MC steps"@
    } else if k == 6 {
        "Therm steps"@
    } else if k == 7 {
        "Stride"@
    } else if k == 8 {
        "T_start"@
    } else if k == 9 {
        "T_end"@
    } else if k == 10 {
        "T_step"@
    } else if k == 11 {
        "Tc_step"@
    } else {
        "Disorder samples"@
    }
}

/// The name of key `k`.
pub fn key_name(k: usize) -> (r: &'static str)
    requires
        k < KEY_COUNT,
    ensures
        r@ == key_text(k as int),
{
    if k == 0 {
        "L"
    } else if k == 1 {
        "J"
    } else if k == 2 {
        "p"
    } else if k == 3 {
        "H"
    } else if k == 4 {
        "Initial state"
    } else if k == 5 {
        "MC steps"
    } else if k == 6 {
        "Therm steps"
    } else if k == 7 {
        "Stride"
    } else if k == 8 {
        "T_start"
    } else if k == 9 {
        "T_end"
    } else if k == 10 {
        "T_step"
    } else if k == 11 {
        "Tc_step"
    } else {
        "Disorder samples"
    }
}

/// The first known key at or after `k` named `key`, or `KEY_COUNT`.
pub open spec fn key_index_from(key: Seq<char>, k: int) -> int
    decreases KEY_COUNT - k,
{
    if k >= KEY_COUNT {
        KEY_COUNT as int
    } else if key_text(k) == key {
        k
    } else {
        key_index_from(key, k + 1)
    }
}

pub open spec fn key_index(key: Seq<char>) -> int {
    key_index_from(key, 0)
}

/// Keys whose value must be a count.
pub open spec fn is_count_key(k: int) -> bool {
    k == KEY_L || k == KEY_MC_STEPS || k == KEY_THERM_STEPS || k == KEY_STRIDE
}

/// The text between line breaks, including the (possibly empty) text after
/// the last one.
pub open spec fn segments(s: Seq<char>) -> Seq<Seq<char>>
    decreases s.len(),
{
    if s.len() == 0 {
        seq![Seq::empty()]
    } else {
        let p = segments(s.drop_last());
        if s.last() == '\n' {
            p.push(Seq::empty())
        } else {
            p.update(p.len() - 1, p.last().push(s.last()))
        }
    }
}

/// Position of the first `=` in `t`, or `t.len()` if there is none.
pub open spec fn eq_pos(t: Seq<char>) -> int
    decreases t.len(),
{
    if t.len() == 0 {
        0
    } else if t[0] == '=' {
        0
    } else {
        1 + eq_pos(t.subrange(1, t.len() as int))
    }
}

/// What has been read so far: the value text of each key, and the first
/// refused entry.
pub ghost struct ScanState {
    pub slots: Seq<Option<Seq<char>>>,
    pub error: Option<(int, Seq<char>)>,
}

pub open spec fn scan_start() -> ScanState {
    ScanState { slots: Seq::new(KEY_COUNT as nat, |k: int| None), error: None }
}

/// Reading one `key = value` entry. A later entry of a key replaces an
/// earlier one; an invalid count or initial-state label stops the reading;
/// `Disorder samples` is kept only when it is a count of at least one.
pub open spec fn scan_entry(st: ScanState, key: Seq<char>, val: Seq<char>) -> ScanState {
    let k = key_index(key);
    if k >= KEY_COUNT {
        st
    } else if k == KEY_SAMPLES {
        match count_of(val) {
            Some(v) => if v >= 1 {
                ScanState { slots: st.slots.update(k, Some(val)), ..st }
            } else {
                st
            },
            None => st,
        }
    } else if (is_count_key(k) && count_of(val) is None) || (k == KEY_INITIAL_STATE && state_of_label(
        trimmed(val),
    ) is None) {
        ScanState { error: Some((k, val)), ..st }
    } else {
        ScanState { slots: st.slots.update(k, Some(val)), ..st }
    }
}

/// Reading one line: its trimmed text is split at the first `=`, and key and
/// value are trimmed again; a line without `=` is skipped.
pub open spec fn scan_line(st: ScanState, seg: Seq<char>) -> ScanState {
    if st.error is Some {
        st
    } else {
        let t = trimmed(seg);
        let e = eq_pos(t);
        if e >= t.len() {
            st
        } else {
            scan_entry(st, trimmed(t.subrange(0, e)), trimmed(t.subrange(e + 1, t.len() as int)))
        }
    }
}

pub open spec fn scan(segs: Seq<Seq<char>>) -> ScanState
    decreases segs.len(),
{
    if segs.len() == 0 {
        scan_start()
    } else {
        scan_line(scan(segs.drop_last()), segs.last())
    }
}

/// Keys whose value is a real number, left as text for the caller to read.
pub open spec fn is_real_key(k: int) -> bool {
    k == KEY_J || k == KEY_P || k == KEY_H || k == KEY_T_START || k == KEY_T_END || k == KEY_T_STEP
        || k == KEY_TC_STEP
}

/// The key position and value text of a line holding `=`.
pub open spec fn line_entry(seg: Seq<char>) -> Option<(int, Seq<char>)> {
    let t = trimmed(seg);
    let e = eq_pos(t);
    if e >= t.len() {
        None
    } else {
        Some((key_index(trimmed(t.subrange(0, e))), trimmed(t.subrange(e + 1, t.len() as int))))
    }
}

/// The entries of real-valued keys, in file order, up to the first refused
/// entry: the texts whose reading as numbers decides, before anything else,
/// which error a summary gets.
pub open spec fn real_entries(segs: Seq<Seq<char>>) -> Seq<(int, Seq<char>)>
    decreases segs.len(),
{
    if segs.len() == 0 {
        Seq::empty()
    } else {
        let prev = real_entries(segs.drop_last());
        if scan(segs.drop_last()).error is Some {
            prev
        } else {
            match line_entry(segs.last()) {
                Some(kv) => if is_real_key(kv.0) {
                    prev.push(kv)
                } else {
                    prev
                },
                None => prev,
            }
        }
    }
}

pub open spec fn entry_views(es: Seq<(usize, String)>) -> Seq<(int, Seq<char>)> {
    es.map_values(|e: (usize, String)| (e.0 as int, e.1@))
}

/// Position of the first `false` in `valid`, if any.
pub open spec fn first_false(valid: Seq<bool>) -> Option<int>
    decreases valid.len(),
{
    if valid.len() == 0 {
        None
    } else {
        match first_false(valid.drop_last()) {
            Some(i) => Some(i),
            None => if valid.last() {
                None
            } else {
                Some(valid.len() - 1)
            },
        }
    }
}

/// The first required key at or after `k` without a value, or `KEY_SAMPLES`.
pub open spec fn first_missing(slots: Seq<Option<Seq<char>>>, k: int) -> int
    decreases KEY_SAMPLES - k,
{
    if k >= KEY_SAMPLES {
        KEY_SAMPLES as int
    } else if slots[k] is None {
        k
    } else {
        first_missing(slots, k + 1)
    }
}

pub open spec fn count_in(o: Option<Seq<char>>) -> int {
    match o {
        Some(v) => match count_of(v) {
            Some(n) => n,
            None => 0,
        },
        None => 0,
    }
}

pub open spec fn text_in(o: Option<Seq<char>>) -> Seq<char> {
    match o {
        Some(v) => v,
        None => Seq::empty(),
    }
}

pub open spec fn slot_view(o: Option<String>) -> Option<Seq<char>> {
    match o {
        Some(s) => Some(s@),
        None => None,
    }
}

/// Parameters of a run as a summary holds them.
pub struct SummaryFields {
    pub l: usize,
    pub j: String,
    pub p: String,
    pub h: String,
    pub initial_state: InitialState,
    pub mc_steps: usize,
    pub therm_steps: usize,
    pub stride: usize,
    pub sample_count: usize,
    pub t_start: String,
    pub t_end: String,
    pub t_step: String,
    pub tc_step: String,
}

/// What reading a summary's text gives: the outcome for counts, labels and
/// missing keys, and the real-valued entries read before any refused one,
/// in file order, for the caller to read as numbers (see [`settle_summary`]).
pub struct SummaryScan {
    pub outcome: Result<SummaryFields, SummaryError>,
    pub real_entries: Vec<(usize, String)>,
}

/// Why a summary could not be read.
pub enum SummaryError {
    /// The required key at this position has no entry.
    Missing(usize),
    /// The entry of the key at this position holds an invalid value.
    Invalid(usize, String),
}

impl SummaryError {
    /// `"Missing <key> in <path>"` or `"Invalid <key> value in <path>: '<value>'"`.
    pub fn message(&self, path: &str) -> (r: String)
        requires
            match self {
                SummaryError::Missing(k) => *k < KEY_COUNT,
                SummaryError::Invalid(k, _) => *k < KEY_COUNT,
            },
        ensures
            r@ == match self {
                SummaryError::Missing(k) => "Missing "@ + key_text(*k as int) + " in "@ + path@,
                SummaryError::Invalid(k, v) => "Invalid "@ + key_text(*k as int) + " value in "@
                    + path@ + ": '"@ + v@ + "'"@,
            },
    {
        match self {
            SummaryError::Missing(k) => {
                let mut m = String::from_str("Missing ");
                m.append(key_name(*k));
                m.append(" in ");
                m.append(path);
                m
            },
            SummaryError::Invalid(k, v) => {
                let mut m = String::from_str("Invalid ");
                m.append(key_name(*k));
                m.append(" value in ");
                m.append(path);
                m.append(": '");
                m.append(v.as_str());
                m.append("'");
                m
            },
        }
    }
}

/// Splits `text` at line breaks.
pub fn split_lines(text: &str) -> (r: Vec<String>)
    ensures
        r@.map_values(|s: String| s@) == segments(text@),
{
    let n = text.unicode_len();
    let mut out: Vec<String> = Vec::new();
    let mut start: usize = 0;
    let mut i: usize = 0;
    proof {
        assert(text@.subrange(0, 0) =~= Seq::<char>::empty());
        assert(out@.map_values(|s: String| s@).push(text@.subrange(0, 0)) =~= seq![
            Seq::<char>::empty(),
        ]);
    }
    while i < n
        invariant
            n == text@.len(),
            start <= i <= n,
            out@.map_values(|s: String| s@).push(text@.subrange(start as int, i as int))
                == segments(text@.subrange(0, i as int)),
        decreases n - i,
    {
        let c = text.get_char(i);
        let ghost before = text@.subrange(0, i as int);
        let ghost after = text@.subrange(0, i as int + 1);
        proof {
            assert(after.drop_last() =~= before);
            assert(after.last() == c);
        }
        if c == '\n' {
            let piece = String::from_str(text.substring_char(start, i));
            out.push(piece);
            start = i + 1;
            proof {
                assert(text@.subrange(start as int, i as int + 1) =~= Seq::<char>::empty());
                assert(out@.map_values(|s: String| s@) =~= segments(before));
            }
        } else {
            proof {
                let p = segments(before);
                assert(text@.subrange(start as int, i as int + 1) =~= text@.subrange(
                    start as int,
                    i as int,
                ).push(c));
                assert(out@.map_values(|s: String| s@).push(text@.subrange(start as int, i as int + 1))
                    =~= p.update(p.len() - 1, p.last().push(c)));
            }
        }
        i = i + 1;
    }
    out.push(String::from_str(text.substring_char(start, n)));
    proof {
        assert(text@.subrange(0, n as int) =~= text@);
        assert(out@.map_values(|s: String| s@) =~= segments(text@));
    }
    out
}

/// Position of the first `=` of `t`, or its length.
fn find_eq(t: &str) -> (r: usize)
    ensures
        r == eq_pos(t@),
        r <= t@.len(),
{
    let n = t.unicode_len();
    let mut i: usize = 0;
    while i < n && t.get_char(i) != '='
        invariant
            n == t@.len(),
            i <= n,
            forall|k: int| 0 <= k < i ==> #[trigger] t@[k] != '=',
        decreases n - i,
    {
        i = i + 1;
    }
    proof {
        lemma_eq_pos(t@, i as int);
    }
    i
}

proof fn lemma_eq_pos(t: Seq<char>, e: int)
    requires
        0 <= e <= t.len(),
        forall|k: int| 0 <= k < e ==> #[trigger] t[k] != '=',
        e < t.len() ==> t[e] == '=',
    ensures
        eq_pos(t) == e,
    decreases t.len(),
{
    if t.len() > 0 && t[0] != '=' {
        let u = t.subrange(1, t.len() as int);
        assert forall|k: int| 0 <= k < e - 1 implies #[trigger] u[k] != '=' by {
            assert(u[k] == t[k + 1]);
        }
        if e - 1 < u.len() {
            assert(u[e - 1] == t[e]);
        }
        lemma_eq_pos(u, e - 1);
    }
}

/// `eq_pos` is the position of the first `=`.
pub proof fn lemma_eq_pos_public(t: Seq<char>, e: int)
    requires
        0 <= e <= t.len(),
        forall|k: int| 0 <= k < e ==> #[trigger] t[k] != '=',
        e < t.len() ==> t[e] == '=',
    ensures
        eq_pos(t) == e,
{
    lemma_eq_pos(t, e);
}

/// Position of the known key named `key`, or `KEY_COUNT`.
fn key_id(key: &str) -> (r: usize)
    ensures
        r == key_index(key@),
{
    let target = String::from_str(key);
    let mut k: usize = 0;
    while k < KEY_COUNT
        invariant
            k <= KEY_COUNT,
            target@ == key@,
            key_index(key@) == key_index_from(key@, k as int),
        decreases KEY_COUNT - k,
    {
        if target == String::from_str(key_name(k)) {
            return k;
        }
        k = k + 1;
    }
    k
}

proof fn lemma_key_index_range(key: Seq<char>, k: int)
    requires
        0 <= k,
    ensures
        k <= key_index_from(key, k) <= KEY_COUNT || key_index_from(key, k) == KEY_COUNT,
        0 <= key_index_from(key, k) <= KEY_COUNT,
    decreases KEY_COUNT - k,
{
    if k < KEY_COUNT && key_text(k) != key {
        lemma_key_index_range(key, k + 1);
    }
}

proof fn lemma_first_missing_none(slots: Seq<Option<Seq<char>>>, k: int)
    requires
        0 <= k <= KEY_SAMPLES,
        first_missing(slots, k) == KEY_SAMPLES,
    ensures
        forall|q: int| k <= q < KEY_SAMPLES ==> #[trigger] slots[q] is Some,
    decreases KEY_SAMPLES - k,
{
    if k < KEY_SAMPLES {
        lemma_first_missing_none(slots, k + 1);
    }
}

/// Every value that reading keeps is valid for its key.
pub open spec fn slot_valid(k: int, o: Option<Seq<char>>) -> bool {
    match o {
        Some(v) => (is_count_key(k) ==> count_of(v) is Some) && (k == KEY_INITIAL_STATE
            ==> state_of_label(trimmed(v)) is Some) && (k == KEY_SAMPLES ==> count_of(v) is Some),
        None => true,
    }
}

proof fn lemma_scan_slots_valid(segs: Seq<Seq<char>>)
    ensures
        scan(segs).slots.len() == KEY_COUNT,
        forall|k: int| 0 <= k < KEY_COUNT ==> slot_valid(k, #[trigger] scan(segs).slots[k]),
    decreases segs.len(),
{
    if segs.len() > 0 {
        lemma_scan_slots_valid(segs.drop_last());
        let prev = scan(segs.drop_last());
        let t = trimmed(segs.last());
        let e = eq_pos(t);
        lemma_key_index_range(trimmed(t.subrange(0, e)), 0);
        assert(scan(segs) == scan_line(prev, segs.last()));
        assert forall|k: int| 0 <= k < KEY_COUNT implies slot_valid(k, #[trigger] scan(segs).slots[k]) by {
            assert(slot_valid(k, prev.slots[k]));
        }
    } else {
        assert forall|k: int| 0 <= k < KEY_COUNT implies slot_valid(k, #[trigger] scan(segs).slots[k]) by {
            assert(scan(segs).slots[k] is None);
        }
    }
}

proof fn lemma_real_entries_stick(segs: Seq<Seq<char>>, j: int)
    requires
        0 <= j <= segs.len(),
        scan(segs.take(j)).error is Some,
    ensures
        real_entries(segs) == real_entries(segs.take(j)),
    decreases segs.len() - j,
{
    if j < segs.len() {
        assert(segs.take(j + 1).drop_last() =~= segs.take(j));
        lemma_scan_error_sticks(segs.take(j + 1), j);
        assert(segs.take(j + 1).take(j) =~= segs.take(j));
        lemma_real_entries_stick(segs, j + 1);
    } else {
        assert(segs.take(j) =~= segs);
    }
}

proof fn lemma_scan_error_sticks(segs: Seq<Seq<char>>, j: int)
    requires
        0 <= j <= segs.len(),
        scan(segs.take(j)).error is Some,
    ensures
        scan(segs) == scan(segs.take(j)),
    decreases segs.len() - j,
{
    if j < segs.len() {
        assert(segs.take(j + 1).drop_last() =~= segs.take(j));
        lemma_scan_error_sticks(segs, j + 1);
    } else {
        assert(segs.take(j) =~= segs);
    }
}

/// The fields that the values read give.
pub open spec fn fields_match(slots: Seq<Option<Seq<char>>>, f: SummaryFields) -> bool {
    &&& f.l == count_in(slots[KEY_L as int])
    &&& f.mc_steps == count_in(slots[KEY_MC_STEPS as int])
    &&& f.therm_steps == count_in(slots[KEY_THERM_STEPS as int])
    &&& f.stride == count_in(slots[KEY_STRIDE as int])
    &&& Some(f.initial_state) == state_of_label(trimmed(text_in(slots[KEY_INITIAL_STATE as int])))
    &&& f.j@ == text_in(slots[KEY_J as int])
    &&& f.p@ == text_in(slots[KEY_P as int])
    &&& f.h@ == text_in(slots[KEY_H as int])
    &&& f.t_start@ == text_in(slots[KEY_T_START as int])
    &&& f.t_end@ == text_in(slots[KEY_T_END as int])
    &&& f.t_step@ == text_in(slots[KEY_T_STEP as int])
    &&& f.tc_step@ == text_in(slots[KEY_TC_STEP as int])
    &&& f.sample_count == if slots[KEY_SAMPLES as int] is Some {
        count_in(slots[KEY_SAMPLES as int])
    } else {
        1
    }
}

/// The result of reading: the first refused entry if any; else the first
/// missing required key if any; else the fields.
pub open spec fn summary_outcome(st: ScanState, r: Result<SummaryFields, SummaryError>) -> bool {
    match st.error {
        Some(e) => match r {
            Err(SummaryError::Invalid(k, v)) => k == e.0 && v@ == e.1,
            _ => false,
        },
        None => if first_missing(st.slots, 0) < KEY_SAMPLES {
            match r {
                Err(SummaryError::Missing(k)) => k == first_missing(st.slots, 0),
                _ => false,
            }
        } else {
            match r {
                Ok(f) => fields_match(st.slots, f),
                _ => false,
            }
        },
    }
}

/// Reads the parameters of a run from the text of its summary. Entries are
/// read line by line until the first invalid count or initial-state label;
/// the real-valued entries read up to there are returned in file order, for
/// the caller to read as numbers and hand to [`settle_summary`]. The outcome
/// reports that invalid entry, else the first missing required key, else the
/// fields. `Disorder samples` is one unless an entry gives a count of at
/// least one.
pub fn parse_summary(text: &str) -> (r: SummaryScan)
    ensures
        summary_outcome(scan(segments(text@)), r.outcome),
        entry_views(r.real_entries@) == real_entries(segments(text@)),
{
    let segs = split_lines(text);
    let ghost views = segs@.map_values(|s: String| s@);
    let mut slots: Vec<Option<String>> = Vec::new();
    let mut k: usize = 0;
    while k < KEY_COUNT
        invariant
            k <= KEY_COUNT,
            slots@.len() == k,
            forall|q: int| 0 <= q < k ==> #[trigger] slots@[q] is None,
        decreases KEY_COUNT - k,
    {
        slots.push(None);
        k = k + 1;
    }
    let mut reals: Vec<(usize, String)> = Vec::new();
    proof {
        assert(slots@.map_values(|o: Option<String>| slot_view(o)) =~= scan_start().slots);
        assert(views.take(0) =~= Seq::<Seq<char>>::empty());
        assert(entry_views(reals@) =~= real_entries(views.take(0)));
    }
    let mut i: usize = 0;
    while i < segs.len()
        invariant
            views == segs@.map_values(|s: String| s@),
            views == segments(text@),
            i <= segs@.len(),
            slots@.len() == KEY_COUNT,
            scan(views.take(i as int)).error is None,
            slots@.map_values(|o: Option<String>| slot_view(o)) == scan(views.take(i as int)).slots,
            entry_views(reals@) == real_entries(views.take(i as int)),
        decreases segs@.len() - i,
    {
        let ghost st = scan(views.take(i as int));
        proof {
            assert(views.take(i as int + 1).drop_last() =~= views.take(i as int));
            assert(views.take(i as int + 1).last() == segs@[i as int]@);
        }
        let ghost prev_reals = entry_views(reals@);
        let line = trim(segs[i].as_str());
        let e = find_eq(line);
        let n = line.unicode_len();
        if e < n {
            let key = trim(line.substring_char(0, e));
            let val = trim(line.substring_char(e + 1, n));
            let kid = key_id(key);
            if kid < KEY_SAMPLES {
                let ok = if kid == KEY_L || kid == KEY_MC_STEPS || kid == KEY_THERM_STEPS || kid
                    == KEY_STRIDE {
                    parse_count(val).is_some()
                } else if kid == KEY_INITIAL_STATE {
                    InitialState::from_label(val).is_some()
                } else {
                    true
                };
                if !ok {
                    proof {
                        lemma_scan_error_sticks(views, i as int + 1);
                        lemma_real_entries_stick(views, i as int + 1);
                        assert(views.take(views.len() as int) =~= views);
                    }
                    return SummaryScan {
                        outcome: Err(SummaryError::Invalid(kid, String::from_str(val))),
                        real_entries: reals,
                    };
                }
                slots.set(kid, Some(String::from_str(val)));
                if kid != KEY_L && kid != KEY_MC_STEPS && kid != KEY_THERM_STEPS && kid != KEY_STRIDE
                    && kid != KEY_INITIAL_STATE {
                    reals.push((kid, String::from_str(val)));
                    proof {
                        assert(entry_views(reals@) =~= prev_reals.push((kid as int, val@)));
                    }
                }
                proof {
                    assert(slots@.map_values(|o: Option<String>| slot_view(o)) =~= st.slots.update(
                        kid as int,
                        Some(val@),
                    ));
                }
            } else if kid == KEY_SAMPLES {
                match parse_count(val) {
                    Some(v) => {
                        if v >= 1 {
                            slots.set(kid, Some(String::from_str(val)));
                            proof {
                                assert(slots@.map_values(|o: Option<String>| slot_view(o))
                                    =~= st.slots.update(kid as int, Some(val@)));
                            }
                        }
                    },
                    None => {},
                }
            }
        }
        i = i + 1;
    }
    proof {
        assert(views.take(views.len() as int) =~= views);
    }
    let ghost fin = scan(views);
    let ghost fin_reals = entry_views(reals@);
    let mut k: usize = 0;
    while k < KEY_SAMPLES
        invariant
            k <= KEY_SAMPLES,
            slots@.len() == KEY_COUNT,
            slots@.map_values(|o: Option<String>| slot_view(o)) == fin.slots,
            fin == scan(segments(text@)),
            fin.error is None,
            first_missing(fin.slots, 0) == first_missing(fin.slots, k as int),
            entry_views(reals@) == fin_reals,
            fin_reals == real_entries(segments(text@)),
        decreases KEY_SAMPLES - k,
    {
        if slots[k].is_none() {
            proof {
                assert(fin.slots[k as int] == slot_view(slots@[k as int]));
                assert(fin.error is None);
            }
            return SummaryScan { outcome: Err(SummaryError::Missing(k)), real_entries: reals };
        }
        proof {
            assert(fin.slots[k as int] == slot_view(slots@[k as int]));
        }
        k = k + 1;
    }
    proof {
        assert forall|q: int| 0 <= q < KEY_COUNT implies #[trigger] fin.slots[q] == slot_view(
            slots@[q],
        ) by {}
    }
    let l = read_count(&slots, KEY_L);
    let mc_steps = read_count(&slots, KEY_MC_STEPS);
    let therm_steps = read_count(&slots, KEY_THERM_STEPS);
    let stride = read_count(&slots, KEY_STRIDE);
    let sample_count = if slots[KEY_SAMPLES].is_some() {
        read_count(&slots, KEY_SAMPLES)
    } else {
        1
    };
    proof {
        lemma_scan_slots_valid(views);
        lemma_first_missing_none(fin.slots, 0);
        assert(fin.slots[KEY_INITIAL_STATE as int] is Some);
        assert(slot_valid(KEY_INITIAL_STATE as int, fin.slots[KEY_INITIAL_STATE as int]));
        assert(fin.slots[KEY_INITIAL_STATE as int] == slot_view(slots@[KEY_INITIAL_STATE as int]));
    }
    let initial_state = match &slots[KEY_INITIAL_STATE] {
        Some(v) => match InitialState::from_label(v.as_str()) {
            Some(s) => s,
            None => InitialState::Random,
        },
        None => InitialState::Random,
    };
    let f = SummaryFields {
        l,
        j: read_text(&slots, KEY_J),
        p: read_text(&slots, KEY_P),
        h: read_text(&slots, KEY_H),
        initial_state,
        mc_steps,
        therm_steps,
        stride,
        sample_count,
        t_start: read_text(&slots, KEY_T_START),
        t_end: read_text(&slots, KEY_T_END),
        t_step: read_text(&slots, KEY_T_STEP),
        tc_step: read_text(&slots, KEY_TC_STEP),
    };
    proof {
        assert(fin.error is None);
        assert(first_missing(fin.slots, 0) == KEY_SAMPLES);
        assert(f.l == count_in(fin.slots[KEY_L as int]));
        assert(f.sample_count == if fin.slots[KEY_SAMPLES as int] is Some {
            count_in(fin.slots[KEY_SAMPLES as int])
        } else {
            1
        });
        assert(Some(f.initial_state) == state_of_label(trimmed(text_in(fin.slots[KEY_INITIAL_STATE as int]))));
        assert(f.j@ == text_in(fin.slots[KEY_J as int]));
    }
    SummaryScan { outcome: Ok(f), real_entries: reals }
}

/// Finishes loading a summary once the caller has read each real-valued
/// entry of `reading` as a number: `valid[i]` tells whether entry `i` is one.
/// The first entry that is not a number is reported; otherwise the reading's
/// own outcome stands. Since the entries are those read before any refused
/// count or label, in file order, this reports the first refused entry of
/// the file, and only then the first missing required key.
pub fn settle_summary(reading: SummaryScan, valid: &Vec<bool>) -> (r: Result<
    SummaryFields,
    SummaryError,
>)
    requires
        valid@.len() == reading.real_entries@.len(),
    ensures
        match first_false(valid@) {
            Some(i) => match r {
                Err(SummaryError::Invalid(k, v)) => k == reading.real_entries@[i].0 && v@
                    == reading.real_entries@[i].1@,
                _ => false,
            },
            None => r == reading.outcome,
        },
{
    let mut i: usize = 0;
    while i < valid.len()
        invariant
            i <= valid@.len(),
            valid@.len() == reading.real_entries@.len(),
            first_false(valid@.take(i as int)) is None,
        decreases valid@.len() - i,
    {
        proof {
            assert(valid@.take(i as int + 1).drop_last() =~= valid@.take(i as int));
        }
        if !valid[i] {
            proof {
                lemma_first_false_prefix(valid@, i as int + 1);
            }
            let k = reading.real_entries[i].0;
            let v = reading.real_entries[i].1.clone();
            return Err(SummaryError::Invalid(k, v));
        }
        i = i + 1;
    }
    proof {
        assert(valid@.take(valid@.len() as int) =~= valid@);
    }
    reading.outcome
}

proof fn lemma_first_false_prefix(valid: Seq<bool>, j: int)
    requires
        0 <= j <= valid.len(),
        first_false(valid.take(j)) is Some,
    ensures
        first_false(valid) == first_false(valid.take(j)),
    decreases valid.len() - j,
{
    if j < valid.len() {
        assert(valid.take(j + 1).drop_last() =~= valid.take(j));
        lemma_first_false_prefix(valid, j + 1);
    } else {
        assert(valid.take(j) =~= valid);
    }
}

fn read_count(slots: &Vec<Option<String>>, k: usize) -> (r: usize)
    requires
        k < slots@.len(),
    ensures
        r == count_in(slot_view(slots@[k as int])),
{
    match &slots[k] {
        Some(v) => match parse_count(v.as_str()) {
            Some(n) => n,
            None => 0,
        },
        None => 0,
    }
}

fn read_text(slots: &Vec<Option<String>>, k: usize) -> (r: String)
    requires
        k < slots@.len(),
    ensures
        r@ == text_in(slot_view(slots@[k as int])),
{
    match &slots[k] {
        Some(v) => v.clone(),
        None => String::new(),
    }
}

/// `2 * l * l`, saturating at `usize::MAX`.
pub open spec fn total_bonds_spec(l: int) -> int {
    if 2 * l * l <= usize::MAX {
        2 * l * l
    } else {
        usize::MAX as int
    }
}

/// `2 * l * l`, saturating at `usize::MAX`: the number of bonds of a lattice.
pub fn total_bonds(l: usize) -> (r: usize)
    ensures
        r == total_bonds_spec(l as int),
{
    match l.checked_mul(2) {
        Some(twice) => match twice.checked_mul(l) {
            Some(r) => r,
            None => usize::MAX,
        },
        None => {
            proof {
                assert(2 * l * l >= 2 * l) by (nonlinear_arith)
                    requires
                        l > 0,
                ;
            }
            usize::MAX
        },
    }
}

/// A `key = value` line: the key, padding, `"= "` and the value.
pub open spec fn entry_line(key: Seq<char>, pad: Seq<char>, v: Seq<char>) -> Seq<char> {
    key + pad + "= "@ + v
}

/// The lines of the parameter block of a run summary.
pub open spec fn summary_lines(f: SummaryFields, negated: usize) -> Seq<Seq<char>> {
    seq![
        "Model parameters"@,
        entry_line(key_text(0), " "@, decimal_text(f.l as nat)),
        entry_line(key_text(1), " "@, f.j@),
        entry_line(key_text(2), " "@, f.p@),
        entry_line(key_text(3), " "@, f.h@),
        entry_line(key_text(4), " "@, f.initial_state.label_view()),
        entry_line("Total bonds"@, " "@, decimal_text(total_bonds_spec(f.l as int) as nat)),
        entry_line("-J bonds (rigid)"@, " "@, decimal_text(negated as nat)),
        Seq::empty(),
        "MC parameters"@,
        entry_line(key_text(5), "   "@, decimal_text(f.mc_steps as nat)),
        entry_line(key_text(6), " "@, decimal_text(f.therm_steps as nat)),
        entry_line(key_text(7), "      "@, decimal_text(f.stride as nat)),
        entry_line(key_text(12), " "@, decimal_text(f.sample_count as nat)),
        Seq::empty(),
        "Scan parameters"@,
        entry_line(key_text(8), " "@, f.t_start@),
        entry_line(key_text(9), "   "@, f.t_end@),
        entry_line(key_text(10), "  "@, f.t_step@),
        entry_line(key_text(11), " "@, f.tc_step@),
    ]
}

/// Lines, each followed by a line break.
pub open spec fn join_lines(ls: Seq<Seq<char>>) -> Seq<char>
    decreases ls.len(),
{
    if ls.len() == 0 {
        Seq::empty()
    } else {
        join_lines(ls.drop_last()) + ls.last() + seq!['\n']
    }
}

proof fn lemma_join_take(ls: Seq<Seq<char>>, k: int)
    requires
        0 <= k < ls.len(),
    ensures
        join_lines(ls.take(k + 1)) == join_lines(ls.take(k)) + ls[k] + seq!['\n'],
{
    assert(ls.take(k + 1).drop_last() =~= ls.take(k));
}

fn push_line(r: &mut String, line: &str)
    ensures
        final(r)@ == old(r)@ + line@ + seq!['\n'],
{
    r.append(line);
    proof {
        reveal_strlit("\n");
    }
    r.append("\n");
}

fn push_entry(r: &mut String, key: &str, pad: &str, value: &str)
    ensures
        final(r)@ == old(r)@ + entry_line(key@, pad@, value@) + seq!['\n'],
{
    let ghost start = r@;
    r.append(key);
    r.append(pad);
    r.append("= ");
    r.append(value);
    proof {
        reveal_strlit("\n");
        assert(r@ =~= start + entry_line(key@, pad@, value@));
    }
    r.append("\n");
}

/// The parameter block of a run summary: model, Monte Carlo and scan
/// parameters, one `key = value` line each, under section titles; `negated`
/// is the number of `-J` bonds that the disorder probability asks for.
pub fn render_parameters(f: &SummaryFields, negated: usize) -> (r: String)
    ensures
        r@ == join_lines(summary_lines(*f, negated)),
{
    let ghost ls = summary_lines(*f, negated);
    let mut r = String::new();
    proof {
        assert(ls.take(0) =~= Seq::<Seq<char>>::empty());
        assert(join_lines(ls.take(0)) == Seq::<char>::empty());
        assert(r@ =~= join_lines(ls.take(0)));
        reveal_strlit("");
        assert(""@ =~= Seq::<char>::empty());
    }
    push_line(&mut r, "Model parameters");
    proof { lemma_join_take(ls, 0); assert(r@ =~= join_lines(ls.take(1))); }
    push_entry(&mut r, key_name(0), " ", decimal(f.l).as_str());
    proof { lemma_join_take(ls, 1); assert(r@ =~= join_lines(ls.take(2))); }
    push_entry(&mut r, key_name(1), " ", f.j.as_str());
    proof { lemma_join_take(ls, 2); assert(r@ =~= join_lines(ls.take(3))); }
    push_entry(&mut r, key_name(2), " ", f.p.as_str());
    proof { lemma_join_take(ls, 3); assert(r@ =~= join_lines(ls.take(4))); }
    push_entry(&mut r, key_name(3), " ", f.h.as_str());
    proof { lemma_join_take(ls, 4); assert(r@ =~= join_lines(ls.take(5))); }
    push_entry(&mut r, key_name(4), " ", f.initial_state.label());
    proof { lemma_join_take(ls, 5); assert(r@ =~= join_lines(ls.take(6))); }
    push_entry(&mut r, "Total bonds", " ", decimal(total_bonds(f.l)).as_str());
    proof { lemma_join_take(ls, 6); assert(r@ =~= join_lines(ls.take(7))); }
    push_entry(&mut r, "-J bonds (rigid)", " ", decimal(negated).as_str());
    proof { lemma_join_take(ls, 7); assert(r@ =~= join_lines(ls.take(8))); }
    push_line(&mut r, "");
    proof { lemma_join_take(ls, 8); assert(r@ =~= join_lines(ls.take(9))); }
    push_line(&mut r, "MC parameters");
    proof { lemma_join_take(ls, 9); assert(r@ =~= join_lines(ls.take(10))); }
    push_entry(&mut r, key_name(5), "   ", decimal(f.mc_steps).as_str());
    proof { lemma_join_take(ls, 10); assert(r@ =~= join_lines(ls.take(11))); }
    push_entry(&mut r, key_name(6), " ", decimal(f.therm_steps).as_str());
    proof { lemma_join_take(ls, 11); assert(r@ =~= join_lines(ls.take(12))); }
    push_entry(&mut r, key_name(7), "      ", decimal(f.stride).as_str());
    proof { lemma_join_take(ls, 12); assert(r@ =~= join_lines(ls.take(13))); }
    push_entry(&mut r, key_name(12), " ", decimal(f.sample_count).as_str());
    proof { lemma_join_take(ls, 13); assert(r@ =~= join_lines(ls.take(14))); }
    push_line(&mut r, "");
    proof { lemma_join_take(ls, 14); assert(r@ =~= join_lines(ls.take(15))); }
    push_line(&mut r, "Scan parameters");
    proof { lemma_join_take(ls, 15); assert(r@ =~= join_lines(ls.take(16))); }
    push_entry(&mut r, key_name(8), " ", f.t_start.as_str());
    proof { lemma_join_take(ls, 16); assert(r@ =~= join_lines(ls.take(17))); }
    push_entry(&mut r, key_name(9), "   ", f.t_end.as_str());
    proof { lemma_join_take(ls, 17); assert(r@ =~= join_lines(ls.take(18))); }
    push_entry(&mut r, key_name(10), "  ", f.t_step.as_str());
    proof { lemma_join_take(ls, 18); assert(r@ =~= join_lines(ls.take(19))); }
    push_entry(&mut r, key_name(11), " ", f.tc_step.as_str());
    proof {
        lemma_join_take(ls, 19);
        assert(ls.take(20) =~= ls);
    }
    r
}

} // verus!
