//! Mapping records and the segment parser: walks the `mappings` string,
//! adding each segment's deltas to running accumulators.
use vstd::prelude::*;

use crate::error::SourceMapError;
use crate::vlq::{decode_raw, decode_value, decode_value_spec, is_separator, lemma_decode_raw_bounds};

verus! {

/// A zero-based (line, column) pair.
#[derive(Clone, Copy, Debug, PartialEq, Eq, Structural)]
pub struct Position {
    pub line: u32,
    pub column: u32,
}

/// One decoded correspondence between a generated and an original position.
///
/// `source_index` and `name_index` are `None` when the segment carries no
/// source (one field) or no name (fewer than five fields); `source` and
/// `name` are then empty, as they are for an index beyond its table.
#[derive(Debug)]
pub struct Mapping {
    pub generated: Position,
    pub original: Position,
    pub source_index: Option<u32>,
    pub name_index: Option<u32>,
    pub source: String,
    pub name: String,
}

/// What a `Mapping` holds, with its strings as character sequences.
pub ghost struct MappingView {
    pub generated: Position,
    pub original: Position,
    pub source_index: Option<u32>,
    pub name_index: Option<u32>,
    pub source: Seq<char>,
    pub name: Seq<char>,
}

impl View for Mapping {
    type V = MappingView;

    open spec fn view(&self) -> MappingView {
        MappingView {
            generated: self.generated,
            original: self.original,
            source_index: self.source_index,
            name_index: self.name_index,
            source: self.source@,
            name: self.name@,
        }
    }
}

impl Mapping {
    /// A copy of this mapping.
    pub fn duplicate(&self) -> (r: Mapping)
        ensures
            r@ == self@,
    {
        Mapping {
            generated: self.generated,
            original: self.original,
            source_index: self.source_index,
            name_index: self.name_index,
            source: self.source.clone(),
            name: self.name.clone(),
        }
    }
}

/// The views of a sequence of mappings.
pub open spec fn views(s: Seq<Mapping>) -> Seq<MappingView> {
    s.map_values(|m: Mapping| m@)
}

/// The character sequences of a table of strings.
pub open spec fn table_view(t: Seq<String>) -> Seq<Seq<char>> {
    t.map_values(|s: String| s@)
}

/// The entry at `idx`, or the empty string when `idx` is beyond the table.
pub open spec fn resolve(table: Seq<Seq<char>>, idx: int) -> Seq<char> {
    if 0 <= idx < table.len() {
        table[idx]
    } else {
        Seq::empty()
    }
}

pub open spec fn in_u32(x: int) -> bool {
    0 <= x <= u32::MAX
}

/// The running state of a parse: absolute values that the next segment's
/// deltas are added to.
#[derive(Clone, Copy)]
pub struct Accumulators {
    pub gen_line: i64,
    pub gen_col: i64,
    pub source: i64,
    pub orig_line: i64,
    pub orig_col: i64,
    pub name: i64,
}

impl Accumulators {
    pub open spec fn wf(self) -> bool {
        in_u32(self.gen_line as int) && in_u32(self.gen_col as int) && in_u32(self.source as int)
            && in_u32(self.orig_line as int) && in_u32(self.orig_col as int) && in_u32(
            self.name as int,
        )
    }

    pub open spec fn zero() -> Accumulators {
        Accumulators { gen_line: 0, gen_col: 0, source: 0, orig_line: 0, orig_col: 0, name: 0 }
    }
}

/// Closes a segment whose decoded fields are `f`, ending at byte `pos`: the
/// new accumulators and the mapping it yields, if it is not empty.
pub open spec fn end_segment(
    acc: Accumulators,
    f: Seq<i64>,
    sources: Seq<Seq<char>>,
    names: Seq<Seq<char>>,
    pos: int,
) -> Result<(Accumulators, Option<MappingView>), SourceMapError> {
    if f.len() == 0 {
        Ok((acc, None))
    } else if f.len() != 1 && f.len() != 4 && f.len() != 5 {
        Err(SourceMapError::InvalidSegment(pos as usize))
    } else {
        let has_source = f.len() >= 4;
        let has_name = f.len() == 5;
        let col = acc.gen_col + f[0];
        let src = if has_source { acc.source + f[1] } else { acc.source as int };
        let ol = if has_source { acc.orig_line + f[2] } else { acc.orig_line as int };
        let oc = if has_source { acc.orig_col + f[3] } else { acc.orig_col as int };
        let nm = if has_name { acc.name + f[4] } else { acc.name as int };
        if !(in_u32(col) && in_u32(src) && in_u32(ol) && in_u32(oc) && in_u32(nm)) {
            Err(SourceMapError::PositionOutOfRange(pos as usize))
        } else {
            let next = Accumulators {
                gen_line: acc.gen_line,
                gen_col: col as i64,
                source: src as i64,
                orig_line: ol as i64,
                orig_col: oc as i64,
                name: nm as i64,
            };
            let m = MappingView {
                generated: Position { line: acc.gen_line as u32, column: col as u32 },
                original: if has_source {
                    Position { line: ol as u32, column: oc as u32 }
                } else {
                    Position { line: 0, column: 0 }
                },
                source_index: if has_source { Some(src as u32) } else { None },
                name_index: if has_name { Some(nm as u32) } else { None },
                source: if has_source { resolve(sources, src) } else { Seq::empty() },
                name: if has_name { resolve(names, nm) } else { Seq::empty() },
            };
            Ok((next, Some(m)))
        }
    }
}

pub open spec fn push_opt(out: Seq<MappingView>, m: Option<MappingView>) -> Seq<MappingView> {
    match m {
        Some(v) => out.push(v),
        None => out,
    }
}

/// Accumulators at the start of the line after `acc`'s.
pub open spec fn next_line(acc: Accumulators) -> Accumulators {
    Accumulators { gen_line: (acc.gen_line + 1) as i64, gen_col: 0, ..acc }
}

/// Parses `b` from byte `i` on, with the accumulators `acc`, the fields `f`
/// already decoded in the current segment and the mappings `out` produced
/// so far; yields every mapping of the string, in the order encoded.
pub open spec fn parse_from(
    b: Seq<u8>,
    i: int,
    acc: Accumulators,
    f: Seq<i64>,
    out: Seq<MappingView>,
    sources: Seq<Seq<char>>,
    names: Seq<Seq<char>>,
) -> Result<Seq<MappingView>, SourceMapError>
    decreases b.len() - i,
    via parse_from_decreases
{
    if i < 0 || i >= b.len() {
        match end_segment(acc, f, sources, names, i) {
            Err(x) => Err(x),
            Ok((_, m)) => Ok(push_opt(out, m)),
        }
    } else if b[i] == 44u8 {
        match end_segment(acc, f, sources, names, i) {
            Err(x) => Err(x),
            Ok((a, m)) => parse_from(b, i + 1, a, Seq::empty(), push_opt(out, m), sources, names),
        }
    } else if b[i] == 59u8 {
        match end_segment(acc, f, sources, names, i) {
            Err(x) => Err(x),
            Ok((a, m)) => if a.gen_line + 1 > u32::MAX {
                Err(SourceMapError::PositionOutOfRange(i as usize))
            } else {
                parse_from(b, i + 1, next_line(a), Seq::empty(), push_opt(out, m), sources, names)
            },
        }
    } else {
        match decode_value_spec(b, i) {
            Err(x) => Err(x),
            Ok((v, e)) => parse_from(b, e, acc, f.push(v as i64), out, sources, names),
        }
    }
}

#[via_fn]
proof fn parse_from_decreases(
    b: Seq<u8>,
    i: int,
    acc: Accumulators,
    f: Seq<i64>,
    out: Seq<MappingView>,
    sources: Seq<Seq<char>>,
    names: Seq<Seq<char>>,
) {
    if 0 <= i < b.len() && b[i] != 44u8 && b[i] != 59u8 {
        lemma_decode_raw_bounds(b, i, 0);
    }
}

/// The mappings that the string `b` encodes, against the given tables.
pub open spec fn decode_mappings_spec(
    b: Seq<u8>,
    sources: Seq<Seq<char>>,
    names: Seq<Seq<char>>,
) -> Result<Seq<MappingView>, SourceMapError> {
    parse_from(b, 0, Accumulators::zero(), Seq::empty(), Seq::empty(), sources, names)
}

/// An error that decoding a mapping string can give.
pub open spec fn is_decode_error(e: SourceMapError) -> bool {
    !(e is InvalidJson) && !(e is MalformedSourceMap)
}

proof fn lemma_decode_raw_errors(b: Seq<u8>, i: int, k: nat)
    ensures
        decode_raw(b, i, k) matches Err(e) ==> is_decode_error(e),
    decreases crate::vlq::MAX_DIGITS - k,
{
    if 0 <= i < b.len() && !is_separator(b[i]) {
        if let Some(d) = crate::vlq::digit_value(b[i]) {
            if d >= 32 && k + 1 < crate::vlq::MAX_DIGITS {
                lemma_decode_raw_errors(b, i + 1, k + 1);
            }
        }
    }
}

proof fn lemma_parse_from_errors(
    b: Seq<u8>,
    i: int,
    acc: Accumulators,
    f: Seq<i64>,
    out: Seq<MappingView>,
    sources: Seq<Seq<char>>,
    names: Seq<Seq<char>>,
)
    ensures
        parse_from(b, i, acc, f, out, sources, names) matches Err(e) ==> is_decode_error(e),
    decreases b.len() - i,
{
    if 0 <= i < b.len() {
        if b[i] == 44u8 {
            if let Ok((a, m)) = end_segment(acc, f, sources, names, i) {
                lemma_parse_from_errors(b, i + 1, a, Seq::empty(), push_opt(out, m), sources, names);
            }
        } else if b[i] == 59u8 {
            if let Ok((a, m)) = end_segment(acc, f, sources, names, i) {
                lemma_parse_from_errors(
                    b,
                    i + 1,
                    next_line(a),
                    Seq::empty(),
                    push_opt(out, m),
                    sources,
                    names,
                );
            }
        } else {
            lemma_decode_raw_errors(b, i, 0);
            lemma_decode_raw_bounds(b, i, 0);
            if let Ok((v, e)) = decode_value_spec(b, i) {
                lemma_parse_from_errors(b, e, acc, f.push(v as i64), out, sources, names);
            }
        }
    }
}

/// Decoding a mapping string fails only with errors of the mapping string
/// itself, never with a JSON or document-shape error.
pub proof fn lemma_decode_errors(b: Seq<u8>, sources: Seq<Seq<char>>, names: Seq<Seq<char>>)
    ensures
        decode_mappings_spec(b, sources, names) matches Err(e) ==> is_decode_error(e),
{
    lemma_parse_from_errors(b, 0, Accumulators::zero(), Seq::empty(), Seq::empty(), sources, names);
}

/// A non-empty segment begins at byte `j`.
pub open spec fn starts_segment(b: Seq<u8>, j: int) -> bool {
    !is_separator(b[j]) && (j == 0 || is_separator(b[j - 1]))
}

/// How many non-empty segments begin among the first `k` bytes of `b`.
pub open spec fn segment_starts(b: Seq<u8>, k: int) -> nat
    decreases k,
{
    if k <= 0 {
        0
    } else {
        segment_starts(b, k - 1) + if starts_segment(b, k - 1) {
            1nat
        } else {
            0nat
        }
    }
}

proof fn lemma_decode_raw_digits(b: Seq<u8>, i: int, k: nat)
    ensures
        decode_raw(b, i, k) is Ok ==> forall|j: int|
            i <= j < decode_raw(b, i, k)->Ok_0.1 ==> !is_separator(#[trigger] b[j]),
    decreases crate::vlq::MAX_DIGITS - k,
{
    if 0 <= i < b.len() && !is_separator(b[i]) {
        if let Some(d) = crate::vlq::digit_value(b[i]) {
            if d >= 32 && k + 1 < crate::vlq::MAX_DIGITS {
                let k1: nat = (k + 1) as nat;
                lemma_decode_raw_digits(b, i + 1, k1);
                assert(decode_raw(b, i, k) == match decode_raw(b, i + 1, k1) {
                    Ok((r, e)) => Ok::<(int, int), SourceMapError>((d - 32 + 32 * r, e)),
                    Err(x) => Err(x),
                });
                let inner = decode_raw(b, i + 1, k1);
                if inner is Ok {
                    let e = inner->Ok_0.1;
                    assert(decode_raw(b, i, k)->Ok_0.1 == e);
                    assert forall|j: int| i <= j < e implies !is_separator(#[trigger] b[j]) by {
                        if j > i {
                            assert(i + 1 <= j < inner->Ok_0.1);
                        }
                    }
                }
            }
        }
    }
}

proof fn lemma_segment_starts_run(b: Seq<u8>, i: int, e: int)
    requires
        0 <= i < e <= b.len(),
        forall|j: int| i <= j < e ==> !is_separator(#[trigger] b[j]),
    ensures
        segment_starts(b, e) == segment_starts(b, i + 1),
    decreases e - i,
{
    if e > i + 1 {
        lemma_segment_starts_run(b, i, e - 1);
        assert(!is_separator(b[e - 2]));
        assert(!starts_segment(b, e - 1));
    }
}

proof fn lemma_parse_from_count(
    b: Seq<u8>,
    i: int,
    acc: Accumulators,
    f: Seq<i64>,
    out: Seq<MappingView>,
    sources: Seq<Seq<char>>,
    names: Seq<Seq<char>>,
)
    requires
        0 <= i <= b.len(),
        (f.len() > 0) == (i > 0 && !is_separator(b[i - 1])),
        out.len() + (if f.len() > 0 {
            1int
        } else {
            0int
        }) == segment_starts(b, i),
    ensures
        parse_from(b, i, acc, f, out, sources, names) matches Ok(ms) ==> ms.len() == segment_starts(
            b,
            b.len() as int,
        ),
    decreases b.len() - i,
{
    if i < b.len() {
        if b[i] == 44u8 || b[i] == 59u8 {
            if let Ok((a, m)) = end_segment(acc, f, sources, names, i) {
                let a2 = if b[i] == 44u8 {
                    a
                } else {
                    next_line(a)
                };
                assert(segment_starts(b, i + 1) == segment_starts(b, i));
                lemma_parse_from_count(b, i + 1, a2, Seq::empty(), push_opt(out, m), sources, names);
            }
        } else {
            lemma_decode_raw_bounds(b, i, 0);
            lemma_decode_raw_digits(b, i, 0);
            if let Ok((v, e)) = decode_value_spec(b, i) {
                assert(segment_starts(b, i + 1) == segment_starts(b, i) + if starts_segment(b, i) {
                    1int
                } else {
                    0int
                });
                lemma_segment_starts_run(b, i, e);
                assert(!is_separator(b[e - 1]));
                lemma_parse_from_count(b, e, acc, f.push(v as i64), out, sources, names);
            }
        }
    }
}

/// Every non-empty segment of a string that decodes yields exactly one
/// mapping: the mappings are as many as the non-empty segments.
pub proof fn lemma_mapping_count(b: Seq<u8>, sources: Seq<Seq<char>>, names: Seq<Seq<char>>)
    ensures
        decode_mappings_spec(b, sources, names) matches Ok(ms) ==> ms.len() == segment_starts(
            b,
            b.len() as int,
        ),
{
    lemma_parse_from_count(b, 0, Accumulators::zero(), Seq::empty(), Seq::empty(), sources, names);
}

fn resolve_entry(table: &Vec<String>, idx: i64) -> (r: String)
    ensures
        r@ == resolve(table_view(table@), idx as int),
{
    if 0 <= idx && (idx as u64) < (table.len() as u64) {
        table[idx as usize].clone()
    } else {
        String::new()
    }
}

fn in_range(x: i64) -> (r: bool)
    ensures
        r == in_u32(x as int),
{
    0 <= x && x <= 4294967295
}

/// Closes the current segment: updates `acc` and appends its mapping to `out`.
fn close_segment(
    acc: &mut Accumulators,
    f: &Vec<i64>,
    out: &mut Vec<Mapping>,
    sources: &Vec<String>,
    names: &Vec<String>,
    pos: usize,
) -> (r: Result<(), SourceMapError>)
    requires
        old(acc).wf(),
        forall|j: int| 0 <= j < f@.len() ==> -34359738368 < #[trigger] f@[j] < 34359738368,
    ensures
        match end_segment(*old(acc), f@, table_view(sources@), table_view(names@), pos as int) {
            Ok((a, m)) => r is Ok && *final(acc) == a && views(final(out)@) == push_opt(
                views(old(out)@),
                m,
            ),
            Err(x) => r == Err::<(), SourceMapError>(x),
        },
        final(acc).wf(),
{
    let n = f.len();
    if n == 0 {
        return Ok(());
    }
    if n != 1 && n != 4 && n != 5 {
        return Err(SourceMapError::InvalidSegment(pos));
    }
    let has_source = n >= 4;
    let has_name = n == 5;
    let col = acc.gen_col + f[0];
    let src = if has_source {
        acc.source + f[1]
    } else {
        acc.source
    };
    let ol = if has_source {
        acc.orig_line + f[2]
    } else {
        acc.orig_line
    };
    let oc = if has_source {
        acc.orig_col + f[3]
    } else {
        acc.orig_col
    };
    let nm = if has_name {
        acc.name + f[4]
    } else {
        acc.name
    };
    if !(in_range(col) && in_range(src) && in_range(ol) && in_range(oc) && in_range(nm)) {
        return Err(SourceMapError::PositionOutOfRange(pos));
    }
    let m = Mapping {
        generated: Position { line: acc.gen_line as u32, column: col as u32 },
        original: if has_source {
            Position { line: ol as u32, column: oc as u32 }
        } else {
            Position { line: 0, column: 0 }
        },
        source_index: if has_source {
            Some(src as u32)
        } else {
            None
        },
        name_index: if has_name {
            Some(nm as u32)
        } else {
            None
        },
        source: if has_source {
            resolve_entry(sources, src)
        } else {
            String::new()
        },
        name: if has_name {
            resolve_entry(names, nm)
        } else {
            String::new()
        },
    };
    acc.gen_col = col;
    acc.source = src;
    acc.orig_line = ol;
    acc.orig_col = oc;
    acc.name = nm;
    let ghost before = old(out)@;
    out.push(m);
    assert(views(out@) =~= views(before).push(m@));
    Ok(())
}

/// Decodes a `mappings` string against the `sources` and `names` tables into
/// the mappings it encodes, in the order encoded; fails on the first
/// malformed segment or value.
pub fn parse_mappings(b: &[u8], sources: &Vec<String>, names: &Vec<String>) -> (r: Result<
    Vec<Mapping>,
    SourceMapError,
>)
    ensures
        match decode_mappings_spec(b@, table_view(sources@), table_view(names@)) {
            Ok(ms) => r is Ok && views(r->Ok_0@) == ms,
            Err(x) => r == Err::<Vec<Mapping>, SourceMapError>(x),
        },
{
    let ghost tb = table_view(sources@);
    let ghost tn = table_view(names@);
    let mut acc = Accumulators {
        gen_line: 0,
        gen_col: 0,
        source: 0,
        orig_line: 0,
        orig_col: 0,
        name: 0,
    };
    let mut fields: Vec<i64> = Vec::new();
    let mut out: Vec<Mapping> = Vec::new();
    let mut i: usize = 0;
    assert(views(out@) =~= Seq::<MappingView>::empty());
    assert(fields@ =~= Seq::<i64>::empty());
    while i < b.len()
        invariant
            i <= b@.len(),
            tb == table_view(sources@),
            tn == table_view(names@),
            acc.wf(),
            forall|j: int| 0 <= j < fields@.len() ==> -34359738368 < #[trigger] fields@[j] < 34359738368,
            decode_mappings_spec(b@, tb, tn) == parse_from(b@, i as int, acc, fields@, views(out@), tb, tn),
        decreases b@.len() - i,
    {
        let c = b[i];
        if c == 44 || c == 59 {
            let ghost prev_out = views(out@);
            let ghost prev_acc = acc;
            let ghost prev_fields = fields@;
            let closed = close_segment(&mut acc, &fields, &mut out, sources, names, i);
            proof {
                assert(b@[i as int] == c);
            }
            match closed {
                Err(x) => {
                    return Err(x);
                },
                Ok(()) => {},
            }
            if c == 59 {
                if acc.gen_line + 1 > 4294967295 {
                    return Err(SourceMapError::PositionOutOfRange(i));
                }
                acc = Accumulators { gen_line: acc.gen_line + 1, gen_col: 0, ..acc };
            }
            fields = Vec::new();
            assert(fields@ =~= Seq::<i64>::empty());
            proof {
                let ghost es = end_segment(prev_acc, prev_fields, tb, tn, i as int);
                assert(es is Ok);
                if c == 59 {
                    assert(acc == next_line(es->Ok_0.0));
                } else {
                    assert(acc == es->Ok_0.0);
                }
                assert(views(out@) == push_opt(prev_out, es->Ok_0.1));
            }
            i = i + 1;
        } else {
            match decode_value(b, i) {
                Err(x) => {
                    return Err(x);
                },
                Ok((v, e)) => {
                    proof {
                        crate::vlq::lemma_pow32_values();
                    }
                    let ghost pf = fields@;
                    fields.push(v);
                    proof {
                        let ghost dv = decode_value_spec(b@, i as int);
                        lemma_decode_raw_bounds(b@, i as int, 0);
                        assert(dv is Ok);
                        assert(fields@ == pf.push(dv->Ok_0.0 as i64));
                        assert(e == dv->Ok_0.1);
                    }
                    i = e;
                },
            }
        }
    }
    match close_segment(&mut acc, &fields, &mut out, sources, names, i) {
        Err(x) => Err(x),
        Ok(()) => Ok(out),
    }
}

} // verus!
