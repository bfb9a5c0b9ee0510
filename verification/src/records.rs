//! The text form of the mapping store: one `incident,card` record per line.

use crate::decimal::{
    decimal_digits, decimal_of, is_digit, lemma_decimal_round_trip, parse_decimal, push_decimal,
};
use crate::store::{
    distinct_incidents, lemma_index_is, lemma_upserted, mapping_of, upserted, MappingStore,
    TrackedMapping,
};
use vstd::prelude::*;
use vstd::slice::slice_subrange;

verus! {

/// The byte between the two numbers of a record.
pub const COMMA: u8 = 44;

/// The byte that ends a line.
pub const NEWLINE: u8 = 10;

/// Whether `b` is an ASCII blank: a space, a tab, or one of the line and page
/// breaks.
pub open spec fn is_blank(b: u8) -> bool {
    b == 32 || 9 <= b <= 13
}

/// The position of the first `b` in `s`, or the length of `s` if there is none.
pub open spec fn position_of(s: Seq<u8>, b: u8) -> int
    decreases s.len(),
{
    if s.len() == 0 || s[0] == b {
        0
    } else {
        1 + position_of(s.drop_first(), b)
    }
}

/// `s` without the blanks at its two ends.
pub open spec fn trimmed(s: Seq<u8>) -> Seq<u8>
    decreases s.len(),
{
    if s.len() > 0 && is_blank(s[0]) {
        trimmed(s.drop_first())
    } else if s.len() > 0 && is_blank(s.last()) {
        trimmed(s.drop_last())
    } else {
        s
    }
}

/// The record that a line holds: after trimming, two decimal numbers with one
/// comma between them and nothing else. Any other line holds none.
pub open spec fn record_of_line(line: Seq<u8>) -> Option<TrackedMapping> {
    let t = trimmed(line);
    let k = position_of(t, COMMA);
    if k < t.len() {
        match (decimal_of(t.take(k)), decimal_of(t.skip(k + 1))) {
            (Some(incident_id), Some(card_id)) => Some(TrackedMapping { incident_id, card_id }),
            _ => None,
        }
    } else {
        None
    }
}

/// The text up to the first line break.
pub open spec fn first_line(content: Seq<u8>) -> Seq<u8> {
    content.take(position_of(content, NEWLINE))
}

/// The text behind the first line break.
pub open spec fn after_first_line(content: Seq<u8>) -> Seq<u8> {
    let k = position_of(content, NEWLINE);
    if k < content.len() {
        content.skip(k + 1)
    } else {
        Seq::empty()
    }
}

/// `acc` after taking in what `line` holds.
pub open spec fn absorbed(acc: Seq<TrackedMapping>, line: Seq<u8>) -> Seq<TrackedMapping> {
    match record_of_line(line) {
        Some(r) => upserted(acc, r),
        None => acc,
    }
}

/// `acc` after taking in every line of `content` in turn.
pub open spec fn load_from(acc: Seq<TrackedMapping>, content: Seq<u8>) -> Seq<TrackedMapping>
    decreases content.len(),
{
    if content.len() == 0 {
        acc
    } else {
        proof {
            lemma_line_split(content);
        }
        load_from(absorbed(acc, first_line(content)), after_first_line(content))
    }
}

/// What a store file holds: the records of its well-formed lines, a later
/// record of an incident replacing an earlier one. Lines that hold no record
/// count for nothing.
pub open spec fn loaded(content: Seq<u8>) -> Seq<TrackedMapping> {
    load_from(Seq::empty(), content)
}

/// The text of a record without its line break.
pub open spec fn record_text(r: TrackedMapping) -> Seq<u8> {
    decimal_digits(r.incident_id as nat) + seq![COMMA] + decimal_digits(r.card_id as nat)
}

/// The line that records `r`.
pub open spec fn record_line(r: TrackedMapping) -> Seq<u8> {
    record_text(r).push(NEWLINE)
}

/// The file that records the entries of `s`, one line each.
pub open spec fn rendered(s: Seq<TrackedMapping>) -> Seq<u8>
    decreases s.len(),
{
    if s.len() == 0 {
        Seq::empty()
    } else {
        rendered(s.drop_last()) + record_line(s.last())
    }
}

/// `content` rewritten without the lines that record `incident_id`. Every
/// other line is kept as it is, lines that hold no record too, and ends with a
/// line break.
pub open spec fn without_incident(content: Seq<u8>, incident_id: u32) -> Seq<u8>
    decreases content.len(),
{
    if content.len() == 0 {
        Seq::empty()
    } else {
        proof {
            lemma_line_split(content);
        }
        kept_line(first_line(content), incident_id) + without_incident(
            after_first_line(content),
            incident_id,
        )
    }
}

/// What rewriting without `incident_id` leaves of one line.
pub open spec fn kept_line(line: Seq<u8>, incident_id: u32) -> Seq<u8> {
    if records_incident(line, incident_id) {
        Seq::empty()
    } else {
        line.push(NEWLINE)
    }
}

/// Whether `line` holds a record of `incident_id`.
pub open spec fn records_incident(line: Seq<u8>, incident_id: u32) -> bool {
    match record_of_line(line) {
        Some(r) => r.incident_id == incident_id,
        None => false,
    }
}

/// Whether `content` is empty or ends with a line break, so that text added
/// behind it starts a new line.
pub open spec fn ends_lines(content: Seq<u8>) -> bool {
    content.len() == 0 || content.last() == NEWLINE
}

/// `position_of` is the least position that holds the byte.
pub proof fn lemma_position_of(s: Seq<u8>, b: u8)
    ensures
        0 <= position_of(s, b) <= s.len(),
        position_of(s, b) < s.len() ==> s[position_of(s, b)] == b,
        forall|j: int| 0 <= j < position_of(s, b) ==> #[trigger] s[j] != b,
    decreases s.len(),
{
    if s.len() == 0 || s[0] == b {
    } else {
        let t = s.drop_first();
        lemma_position_of(t, b);
        let k = position_of(t, b);
        assert forall|j: int| 0 <= j < k + 1 implies #[trigger] s[j] != b by {
            if j > 0 {
                assert(s[j] == t[j - 1]);
            }
        }
        if k < t.len() {
            assert(s[k + 1] == t[k]);
        }
    }
}

/// A position before which the byte does not occur, and which holds it or is
/// the end, is `position_of`.
pub proof fn lemma_position_is(s: Seq<u8>, b: u8, k: int)
    requires
        0 <= k <= s.len(),
        forall|j: int| 0 <= j < k ==> #[trigger] s[j] != b,
        k < s.len() ==> s[k] == b,
    ensures
        position_of(s, b) == k,
{
    lemma_position_of(s, b);
    let m = position_of(s, b);
    if m < k {
        assert(s[m] != b);
    } else if m > k {
        assert(s[k] != b);
    }
}

/// The first line holds no line break, and what follows it is shorter than
/// the whole.
pub proof fn lemma_line_split(content: Seq<u8>)
    ensures
        forall|j: int| 0 <= j < first_line(content).len() ==> #[trigger] first_line(content)[j] != NEWLINE,
        content.len() > 0 ==> after_first_line(content).len() < content.len(),
        first_line(content).len() <= content.len(),
{
    lemma_position_of(content, NEWLINE);
}

/// Whether `b` is an ASCII blank.
pub fn is_blank_byte(b: u8) -> (blank: bool)
    ensures
        blank == is_blank(b),
{
    b == 32 || (9 <= b && b <= 13)
}

/// The position of the first `b` in `text`, or the length of `text`.
pub fn find_byte(text: &[u8], b: u8) -> (k: usize)
    ensures
        k == position_of(text@, b),
        k <= text@.len(),
{
    let mut k: usize = 0;
    while k < text.len()
        invariant
            k <= text.len(),
            forall|j: int| 0 <= j < k ==> #[trigger] text@[j] != b,
        decreases text.len() - k,
    {
        if text[k] == b {
            proof {
                lemma_position_is(text@, b, k as int);
            }
            return k;
        }
        k = k + 1;
    }
    proof {
        lemma_position_is(text@, b, k as int);
    }
    k
}

/// `text` without the blanks at its two ends.
pub fn trim(text: &[u8]) -> (inner: &[u8])
    ensures
        inner@ == trimmed(text@),
{
    let mut lo: usize = 0;
    let mut hi: usize = text.len();
    assert(text@.subrange(0, hi as int) =~= text@);
    while lo < hi && is_blank_byte(text[lo])
        invariant
            lo <= hi,
            hi == text.len(),
            trimmed(text@.subrange(lo as int, hi as int)) == trimmed(text@),
        decreases hi - lo,
    {
        proof {
            let cur = text@.subrange(lo as int, hi as int);
            assert(cur[0] == text@[lo as int]);
            assert(cur.drop_first() =~= text@.subrange(lo + 1, hi as int));
        }
        lo = lo + 1;
    }
    while lo < hi && is_blank_byte(text[hi - 1])
        invariant
            lo <= hi,
            hi <= text.len(),
            trimmed(text@.subrange(lo as int, hi as int)) == trimmed(text@),
            lo < hi ==> !is_blank(text@[lo as int]),
        decreases hi - lo,
    {
        proof {
            let cur = text@.subrange(lo as int, hi as int);
            assert(cur[0] == text@[lo as int]);
            assert(cur.last() == text@[hi - 1]);
            assert(cur.drop_last() =~= text@.subrange(lo as int, hi - 1));
        }
        hi = hi - 1;
    }
    proof {
        let cur = text@.subrange(lo as int, hi as int);
        if lo < hi {
            assert(cur[0] == text@[lo as int]);
            assert(cur.last() == text@[hi - 1]);
        }
    }
    slice_subrange(text, lo, hi)
}

/// Reads the record that `line` holds, if it holds one.
pub fn parse_record(line: &[u8]) -> (record: Option<TrackedMapping>)
    ensures
        record == record_of_line(line@),
{
    let t = trim(line);
    let k: usize = find_byte(t, COMMA);
    if k >= t.len() {
        return None;
    }
    let left = slice_subrange(t, 0, k);
    let right = slice_subrange(t, k + 1, t.len());
    match parse_decimal(left) {
        Some(incident_id) => match parse_decimal(right) {
            Some(card_id) => Some(TrackedMapping { incident_id, card_id }),
            None => None,
        },
        None => None,
    }
}

/// Parts `content` at its first line break.
pub fn split_first_line(content: &[u8]) -> (parts: (&[u8], &[u8]))
    ensures
        parts.0@ == first_line(content@),
        parts.1@ == after_first_line(content@),
        content@.len() > 0 ==> parts.1@.len() < content@.len(),
{
    let k: usize = find_byte(content, NEWLINE);
    let line = slice_subrange(content, 0, k);
    let rest = if k < content.len() {
        slice_subrange(content, k + 1, content.len())
    } else {
        slice_subrange(content, k, k)
    };
    (line, rest)
}

/// Reads a store file. Lines that hold no record are passed over.
pub fn load(content: &[u8]) -> (store: MappingStore)
    ensures
        store@ == loaded(content@),
        store.well_formed(),
{
    let mut store = MappingStore::new();
    let mut rest: &[u8] = content;
    while rest.len() > 0
        invariant
            store.well_formed(),
            load_from(store@, rest@) == loaded(content@),
        decreases rest@.len(),
    {
        let (line, tail) = split_first_line(rest);
        match parse_record(line) {
            Some(r) => {
                store.upsert(r.incident_id, r.card_id);
            },
            None => {},
        }
        rest = tail;
    }
    store
}

/// Appends `text` to `out`.
pub fn push_bytes(out: &mut Vec<u8>, text: &[u8])
    ensures
        final(out)@ == old(out)@ + text@,
{
    let ghost before = out@;
    let mut i: usize = 0;
    while i < text.len()
        invariant
            i <= text.len(),
            out@ == before + text@.take(i as int),
        decreases text.len() - i,
    {
        out.push(text[i]);
        assert(out@ =~= before + text@.take(i + 1));
        i = i + 1;
    }
    assert(text@.take(i as int) =~= text@);
}

/// Appends the line that records `r` to `out`.
pub fn push_record(r: TrackedMapping, out: &mut Vec<u8>)
    ensures
        final(out)@ == old(out)@ + record_line(r),
{
    let ghost before = out@;
    push_decimal(r.incident_id as u64, out);
    out.push(COMMA);
    push_decimal(r.card_id as u64, out);
    out.push(NEWLINE);
    assert(out@ =~= before + record_line(r));
}

/// The line to add to a store file when `r` is recorded.
pub fn render_record(r: TrackedMapping) -> (line: Vec<u8>)
    ensures
        line@ == record_line(r),
{
    let mut out: Vec<u8> = Vec::new();
    push_record(r, &mut out);
    assert(out@ =~= record_line(r));
    out
}

/// The store file that records the entries of `store`.
pub fn render(store: &MappingStore) -> (content: Vec<u8>)
    ensures
        content@ == rendered(store@),
{
    let mut out: Vec<u8> = Vec::new();
    let mut k: usize = 0;
    while k < store.len()
        invariant
            k <= store@.len(),
            out@ == rendered(store@.take(k as int)),
        decreases store@.len() - k,
    {
        push_record(store.entry(k), &mut out);
        assert(store@.take(k + 1).drop_last() =~= store@.take(k as int));
        k = k + 1;
    }
    assert(store@.take(k as int) =~= store@);
    out
}

/// The store file `content` rewritten without the records of `incident_id`.
pub fn remove_from_text(content: &[u8], incident_id: u32) -> (rewritten: Vec<u8>)
    ensures
        rewritten@ == without_incident(content@, incident_id),
{
    let mut out: Vec<u8> = Vec::new();
    let mut rest: &[u8] = content;
    while rest.len() > 0
        invariant
            out@ + without_incident(rest@, incident_id) == without_incident(content@, incident_id),
        decreases rest@.len(),
    {
        let ghost before = out@;
        let (line, tail) = split_first_line(rest);
        let drop = match parse_record(line) {
            Some(r) => r.incident_id == incident_id,
            None => false,
        };
        if !drop {
            push_bytes(&mut out, line);
            out.push(NEWLINE);
        }
        assert(out@ =~= before + kept_line(line@, incident_id));
        assert(out@ + without_incident(tail@, incident_id) =~= before + without_incident(
            rest@,
            incident_id,
        ));
        rest = tail;
    }
    assert(out@ + Seq::<u8>::empty() =~= out@);
    out
}

/// Whether `line` holds no line break.
pub open spec fn is_one_line(line: Seq<u8>) -> bool {
    forall|j: int| 0 <= j < line.len() ==> #[trigger] line[j] != NEWLINE
}

/// The text of a record is one line, and that line holds the record.
pub proof fn lemma_record_text_parses(r: TrackedMapping)
    ensures
        record_of_line(record_text(r)) == Some(r),
        is_one_line(record_text(r)),
        record_text(r).len() > 0,
{
    let a = decimal_digits(r.incident_id as nat);
    let b = decimal_digits(r.card_id as nat);
    lemma_decimal_round_trip(r.incident_id as nat);
    lemma_decimal_round_trip(r.card_id as nat);
    let t = record_text(r);
    assert(t.len() == a.len() + 1 + b.len());
    assert forall|j: int| 0 <= j < t.len() implies #[trigger] t[j] != NEWLINE && !is_blank(t[j])
        && (j < a.len() ==> t[j] != COMMA) by {
        if j < a.len() {
            assert(is_digit(a[j]));
            assert(t[j] == a[j]);
        } else if j > a.len() {
            assert(is_digit(b[j - a.len() - 1]));
            assert(t[j] == b[j - a.len() - 1]);
        }
    }
    assert(!is_blank(t[0]));
    assert(!is_blank(t[t.len() - 1]));
    assert(trimmed(t) == t);
    lemma_position_is(t, COMMA, a.len() as int);
    assert(t.take(a.len() as int) =~= a);
    assert(t.skip(a.len() as int + 1) =~= b);
}

/// Taking in a text that starts with a whole line is taking in that line and
/// then the rest.
pub proof fn lemma_absorb_line(acc: Seq<TrackedMapping>, line: Seq<u8>, rest: Seq<u8>)
    requires
        is_one_line(line),
    ensures
        load_from(acc, line + seq![NEWLINE] + rest) == load_from(absorbed(acc, line), rest),
{
    let content = line + seq![NEWLINE] + rest;
    assert forall|j: int| 0 <= j < line.len() implies #[trigger] content[j] != NEWLINE by {
        assert(content[j] == line[j]);
    }
    lemma_position_is(content, NEWLINE, line.len() as int);
    assert(first_line(content) =~= line);
    assert(after_first_line(content) =~= rest);
}

/// Taking in the line that records `r` is recording `r`.
pub proof fn lemma_absorb_record_line(acc: Seq<TrackedMapping>, r: TrackedMapping)
    ensures
        load_from(acc, record_line(r)) == upserted(acc, r),
{
    lemma_record_text_parses(r);
    lemma_absorb_line(acc, record_text(r), Seq::empty());
    assert(record_line(r) =~= record_text(r) + seq![NEWLINE] + Seq::<u8>::empty());
}

/// A text that ends its last line can be taken in first, and what follows it
/// afterwards.
pub proof fn lemma_load_in_two_parts(acc: Seq<TrackedMapping>, a: Seq<u8>, b: Seq<u8>)
    requires
        ends_lines(a),
    ensures
        load_from(acc, a + b) == load_from(load_from(acc, a), b),
    decreases a.len(),
{
    if a.len() == 0 {
        assert(a + b =~= b);
    } else {
        lemma_position_of(a, NEWLINE);
        let k = position_of(a, NEWLINE);
        if k == a.len() {
            assert(a[a.len() - 1] != NEWLINE);
        }
        let whole = a + b;
        assert forall|j: int| 0 <= j < k implies #[trigger] whole[j] != NEWLINE by {
            assert(whole[j] == a[j]);
        }
        assert(whole[k] == a[k]);
        lemma_position_is(whole, NEWLINE, k);
        assert(first_line(whole) =~= first_line(a));
        assert(after_first_line(whole) =~= after_first_line(a) + b);
        let rest = after_first_line(a);
        if rest.len() > 0 {
            assert(rest.last() == a.last());
        }
        lemma_load_in_two_parts(absorbed(acc, first_line(a)), rest, b);
    }
}

/// Whatever a file holds, no incident is loaded twice.
pub proof fn loaded_incidents_are_distinct(content: Seq<u8>)
    ensures
        distinct_incidents(loaded(content)),
{
    lemma_load_keeps_incidents_distinct(Seq::empty(), content);
}

/// Taking in more lines never records an incident twice.
pub proof fn lemma_load_keeps_incidents_distinct(acc: Seq<TrackedMapping>, content: Seq<u8>)
    requires
        distinct_incidents(acc),
    ensures
        distinct_incidents(load_from(acc, content)),
    decreases content.len(),
{
    if content.len() > 0 {
        lemma_line_split(content);
        let line = first_line(content);
        match record_of_line(line) {
            Some(r) => {
                lemma_upserted(acc, r);
            },
            None => {},
        }
        lemma_load_keeps_incidents_distinct(absorbed(acc, line), after_first_line(content));
    }
}

/// A line that holds no record counts for nothing: the file loads as it
/// would without that line, whatever stands before and behind it.
pub proof fn malformed_line_is_skipped(before: Seq<u8>, line: Seq<u8>, after: Seq<u8>)
    requires
        ends_lines(before),
        is_one_line(line),
        record_of_line(line) is None,
    ensures
        loaded(before + line + seq![NEWLINE] + after) == loaded(before + after),
{
    let acc = Seq::<TrackedMapping>::empty();
    let tail = line + seq![NEWLINE] + after;
    assert(before + line + seq![NEWLINE] + after =~= before + tail);
    lemma_load_in_two_parts(acc, before, tail);
    lemma_absorb_line(load_from(acc, before), line, after);
    lemma_load_in_two_parts(acc, before, after);
}

/// A file of one line that holds no record and one line that records `r`, in
/// either order, loads as exactly `r`; so it does when the record stands last
/// without a line break.
pub proof fn lone_record_survives_malformed_line(line: Seq<u8>, r: TrackedMapping)
    requires
        is_one_line(line),
        record_of_line(line) is None,
    ensures
        loaded(line + seq![NEWLINE] + record_line(r)) == seq![r],
        loaded(line + seq![NEWLINE] + record_text(r)) == seq![r],
        loaded(record_line(r) + line + seq![NEWLINE]) == seq![r],
{
    let acc = Seq::<TrackedMapping>::empty();
    assert(upserted(acc, r) =~= seq![r]);
    lemma_record_text_parses(r);
    lemma_absorb_line(acc, line, record_line(r));
    lemma_absorb_record_line(acc, r);
    lemma_absorb_line(acc, line, record_text(r));
    lemma_absorb_last_line(acc, record_text(r));
    assert(record_line(r) + line + seq![NEWLINE] =~= record_text(r) + seq![NEWLINE] + (line
        + seq![NEWLINE]));
    lemma_absorb_line(acc, record_text(r), line + seq![NEWLINE]);
    assert(line + seq![NEWLINE] =~= line + seq![NEWLINE] + Seq::<u8>::empty());
    lemma_absorb_line(seq![r], line, Seq::empty());
}

/// Taking in a text of one line without a line break is taking in that line.
pub proof fn lemma_absorb_last_line(acc: Seq<TrackedMapping>, line: Seq<u8>)
    requires
        is_one_line(line),
        line.len() > 0,
    ensures
        load_from(acc, line) == absorbed(acc, line),
{
    lemma_position_is(line, NEWLINE, line.len() as int);
    assert(first_line(line) =~= line);
    assert(after_first_line(line) =~= Seq::<u8>::empty());
    reveal_with_fuel(load_from, 2);
}

/// Adding a record's line to a file that ends its last line records it: the
/// file then loads as the old content with the record upserted.
pub proof fn appended_record_is_upserted(content: Seq<u8>, r: TrackedMapping)
    requires
        ends_lines(content),
    ensures
        loaded(content + record_line(r)) == upserted(loaded(content), r),
        ends_lines(content + record_line(r)),
{
    lemma_load_in_two_parts(Seq::empty(), content, record_line(r));
    lemma_absorb_record_line(loaded(content), r);
}

/// Rewriting a file without an incident is removing that incident from what
/// the file holds, and nothing else.
pub proof fn rewritten_file_drops_incident(content: Seq<u8>, incident_id: u32)
    ensures
        mapping_of(loaded(without_incident(content, incident_id))) == mapping_of(
            loaded(content),
        ).remove(incident_id),
        ends_lines(without_incident(content, incident_id)),
{
    let acc = Seq::<TrackedMapping>::empty();
    assert(mapping_of(acc) =~= mapping_of(acc).remove(incident_id));
    lemma_rewrite_from(acc, acc, content, incident_id);
}

/// The general form of `rewritten_file_drops_incident`, from any two starting
/// points that differ in the incident alone.
pub proof fn lemma_rewrite_from(
    kept: Seq<TrackedMapping>,
    full: Seq<TrackedMapping>,
    content: Seq<u8>,
    incident_id: u32,
)
    requires
        distinct_incidents(kept),
        distinct_incidents(full),
        mapping_of(kept) == mapping_of(full).remove(incident_id),
    ensures
        mapping_of(load_from(kept, without_incident(content, incident_id))) == mapping_of(
            load_from(full, content),
        ).remove(incident_id),
        ends_lines(without_incident(content, incident_id)),
    decreases content.len(),
{
    if content.len() > 0 {
        lemma_line_split(content);
        let line = first_line(content);
        let rest = after_first_line(content);
        let tail = without_incident(rest, incident_id);
        let full_next = absorbed(full, line);
        match record_of_line(line) {
            Some(r) => {
                lemma_upserted(full, r);
                lemma_upserted(kept, r);
            },
            None => {},
        }
        if records_incident(line, incident_id) {
            assert(kept_line(line, incident_id) + tail =~= tail);
            assert(mapping_of(kept) =~= mapping_of(full_next).remove(incident_id));
            lemma_rewrite_from(kept, full_next, rest, incident_id);
        } else {
            assert(kept_line(line, incident_id) + tail =~= line + seq![NEWLINE] + tail);
            assert(is_one_line(line));
            lemma_absorb_line(kept, line, tail);
            let kept_next = absorbed(kept, line);
            assert(mapping_of(kept_next) =~= mapping_of(full_next).remove(incident_id));
            lemma_rewrite_from(kept_next, full_next, rest, incident_id);
            let out = without_incident(content, incident_id);
            if tail.len() > 0 {
                assert(out.last() == tail.last());
            } else {
                assert(out.last() == NEWLINE);
            }
        }
    }
}

/// A store written out and read back is the same store.
pub proof fn rendered_store_loads_back(s: Seq<TrackedMapping>)
    requires
        distinct_incidents(s),
    ensures
        loaded(rendered(s)) == s,
        ends_lines(rendered(s)),
    decreases s.len(),
{
    if s.len() > 0 {
        let p = s.drop_last();
        let r = s.last();
        assert forall|i: int, j: int| 0 <= i < j < p.len() implies (#[trigger] p[i]).incident_id != (
        #[trigger] p[j]).incident_id by {
            assert(p[i] == s[i]);
            assert(p[j] == s[j]);
        }
        rendered_store_loads_back(p);
        appended_record_is_upserted(rendered(p), r);
        assert forall|j: int| 0 <= j < p.len() implies (#[trigger] p[j]).incident_id
            != r.incident_id by {
            assert(p[j] == s[j]);
            assert(r == s[s.len() - 1]);
        }
        lemma_index_is(p, r.incident_id, p.len() as int);
        assert(upserted(p, r) =~= s);
    }
}

} // verus!
