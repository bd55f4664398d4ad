//! The match index of a file: which lines match, where in the file the
//! matches are (as buckets of a match map), how many hits there are and
//! how often each named capture group took each value.
//!
//! A scan splits the file into chunks of lines; each chunk is processed on
//! its own into a batch message, and the index applies the batches of the
//! current scan in chunk order, whatever order they arrive in.

use vstd::prelude::*;

use crate::frequencies::{
    bars_view, batch_after_add, batch_count, batch_wf, busiest_group, entry_at, first_bars, group_count,
    groups_after_add, groups_wf, lemma_batch_after_add, lemma_groups_after_add, ranked, FrequencyBatch,
    GroupFrequencies,
};
use crate::regex_debug::{capture_names, captures_in, group_view, matches_view, CompiledRegex, GroupMatch};
use crate::text::{chars_of, decode_lossy, utf8_lossy};

verus! {

/// Lines read into one chunk of work.
pub const CHUNK_LINES: usize = 4096;

/// Chunks that may wait for each worker.
pub const MAX_QUEUED_CHUNKS_PER_WORKER: usize = 2;

/// The number of buckets the file is divided into for the match map.
pub const MATCH_MAP_BUCKETS: usize = 8192;

/// The most distinct values counted for one capture group.
pub const MAX_FREQUENCY_VALUES_PER_GROUP: usize = 256;

/// A 1-based line number as the index stores it.
pub type LineNumber = u32;

/// A count to add to one value of one named capture group.
pub struct FrequencyDelta {
    pub group: String,
    pub value: String,
    pub count: u64,
}

/// The plain view of a frequency delta.
pub open spec fn delta_view(d: FrequencyDelta) -> (Seq<char>, Seq<char>, u64) {
    (d.group@, d.value@, d.count)
}

/// The plain view of a list of frequency deltas.
pub open spec fn deltas_view(v: Seq<FrequencyDelta>) -> Seq<(Seq<char>, Seq<char>, u64)> {
    v.map_values(|d: FrequencyDelta| delta_view(d))
}

/// What a scan reports to the index.
pub enum ScanMessage {
    Batch {
        generation: u64,
        chunk_index: usize,
        matching_lines: Vec<LineNumber>,
        map_buckets: Vec<u16>,
        hit_count: u64,
        frequencies: Vec<FrequencyDelta>,
        bytes_scanned: u64,
        lines_scanned: usize,
    },
    Done { generation: u64, bytes_scanned: u64, lines_scanned: usize },
    Error { generation: u64, message: String },
}

/// One line of a chunk: its 1-based number, where it starts in the file and
/// its bytes (line ending included).
pub struct ScanLine {
    pub line: usize,
    pub byte_offset: u64,
    pub text: Vec<u8>,
}

/// A chunk of lines to scan, with the progress reached after it.
pub struct WorkChunk {
    pub index: usize,
    pub lines: Vec<ScanLine>,
    pub bytes_scanned: u64,
    pub lines_scanned: usize,
}

/// The match map bucket of a match at `byte_offset` in a file of
/// `file_size` bytes.
pub open spec fn bucket_of(byte_offset: u64, file_size: u64) -> u16 {
    if file_size == 0 {
        0
    } else {
        let scaled: int = if byte_offset * MATCH_MAP_BUCKETS <= u64::MAX {
            byte_offset * MATCH_MAP_BUCKETS
        } else {
            u64::MAX as int
        };
        let b: int = scaled / (file_size as int);
        if b <= MATCH_MAP_BUCKETS - 1 {
            b as u16
        } else {
            (MATCH_MAP_BUCKETS - 1) as u16
        }
    }
}

/// The match map bucket of a match at `byte_offset` in a file of
/// `file_size` bytes: the offset scaled to the bucket count (saturating),
/// capped at the last bucket; bucket zero for an empty file.
pub fn match_bucket(byte_offset: u64, file_size: u64) -> (r: u16)
    ensures
        r == bucket_of(byte_offset, file_size),
        (r as int) < MATCH_MAP_BUCKETS,
{
    if file_size == 0 {
        return 0;
    }
    let scaled = match byte_offset.checked_mul(8192) {
        Some(v) => v,
        None => u64::MAX,
    };
    let b = scaled / file_size;
    if b <= 8191 {
        b as u16
    } else {
        8191
    }
}

/// Records the bucket of a match at `byte_offset` the first time it is
/// seen.
pub fn mark_match_bucket(seen: &mut Vec<bool>, buckets: &mut Vec<u16>, byte_offset: u64, file_size: u64)
    requires
        old(seen)@.len() == MATCH_MAP_BUCKETS,
    ensures
        final(seen)@ == old(seen)@.update(bucket_of(byte_offset, file_size) as int, true),
        final(buckets)@ == (if old(seen)@[bucket_of(byte_offset, file_size) as int] {
            old(buckets)@
        } else {
            old(buckets)@.push(bucket_of(byte_offset, file_size))
        }),
{
    let bucket = match_bucket(byte_offset, file_size);
    if !seen[bucket as usize] {
        seen.set(bucket as usize, true);
        buckets.push(bucket);
    } else {
        assert(seen@ =~= old(seen)@.update(bucket as int, true));
    }
}

/// `line` as a stored line number, if it fits.
pub fn to_line_number(line: usize) -> (r: Option<LineNumber>)
    ensures
        r == (if line <= u32::MAX {
            Some(line as u32)
        } else {
            None::<u32>
        }),
{
    if line <= 4294967295usize {
        Some(line as u32)
    } else {
        None
    }
}

/// A stored line number as an index-sized number.
pub fn line_to_usize(line: LineNumber) -> (r: usize)
    ensures
        r == line,
{
    line as usize
}

/// The named capture groups among `names`, each with its index, in order.
pub open spec fn named_groups_of(names: Seq<Option<Seq<char>>>) -> Seq<(usize, Seq<char>)>
    decreases names.len(),
{
    if names.len() == 0 {
        seq![]
    } else {
        let before = named_groups_of(names.drop_last());
        match names.last() {
            Some(name) => before.push(((names.len() - 1) as usize, name)),
            None => before,
        }
    }
}

/// The plain view of (group index, name) pairs.
pub open spec fn named_view(v: Seq<(usize, String)>) -> Seq<(usize, Seq<char>)> {
    v.map_values(|e: (usize, String)| (e.0, e.1@))
}

/// The named capture groups of `regex`, each with its index, in order.
pub fn named_capture_names(re: &CompiledRegex) -> (r: Vec<(usize, String)>)
    ensures
        named_view(r@) == named_groups_of(re.names()),
{
    let names = capture_names(re);
    let ghost gn = re.names();
    let mut out: Vec<(usize, String)> = Vec::new();
    let mut idx: usize = 0;
    while idx < names.len()
        invariant
            idx <= names@.len(),
            names@.len() == gn.len(),
            forall|k: int|
                0 <= k < names@.len() ==> match #[trigger] names@[k] {
                    Some(name) => gn[k] == Some(name@),
                    None => gn[k] is None,
                },
            named_view(out@) == named_groups_of(gn.take(idx as int)),
        decreases names@.len() - idx,
    {
        assert(gn.take(idx + 1).drop_last() =~= gn.take(idx as int));
        assert(gn.take(idx + 1).last() == gn[idx as int]);
        match &names[idx] {
            Some(name) => {
                let ghost before = out@;
                out.push((idx, name.clone()));
                assert(named_view(out@) =~= named_view(before).push((idx, name@)));
            },
            None => {},
        }
        idx = idx + 1;
    }
    assert(gn.take(names@.len() as int) =~= gn);
    out
}

/// Counts one more occurrence of `value` for capture group `group_idx`; a
/// new value is only admitted while the group has fewer than
/// `MAX_FREQUENCY_VALUES_PER_GROUP` values.
pub fn increment_frequency(frequencies: &mut FrequencyBatch, group_idx: usize, value: &str)
    requires
        old(frequencies).wf(),
    ensures
        final(frequencies).wf(),
        final(frequencies).listing() == batch_after_add(
            old(frequencies).listing(),
            group_idx,
            value@,
            1,
            MAX_FREQUENCY_VALUES_PER_GROUP as nat,
        ),
{
    let v = chars_of(value);
    frequencies.add_capped(group_idx, v.as_slice(), 1, MAX_FREQUENCY_VALUES_PER_GROUP);
}

/// The name of capture group `g` in `named`, if it has one (the first entry
/// for that index).
pub open spec fn group_name_of(named: Seq<(usize, Seq<char>)>, g: usize) -> Option<Seq<char>>
    decreases named.len(),
{
    if named.len() == 0 {
        None
    } else if named[0].0 == g {
        Some(named[0].1)
    } else {
        group_name_of(named.drop_first(), g)
    }
}

/// The deltas of a batch listing, group by group and value by value, for
/// the groups that have a name.
pub open spec fn deltas_of(
    l: Seq<(usize, Seq<(Seq<char>, u64)>)>,
    named: Seq<(usize, Seq<char>)>,
) -> Seq<(Seq<char>, Seq<char>, u64)>
    decreases l.len(),
{
    if l.len() == 0 {
        seq![]
    } else {
        deltas_of(l.drop_last(), named) + match group_name_of(named, l.last().0) {
            Some(name) => l.last().1.map_values(|e: (Seq<char>, u64)| (name, e.0, e.1)),
            None => seq![],
        }
    }
}

/// The name of group `g` among `named`.
fn find_group_name(named: &[(usize, String)], g: usize) -> (r: Option<String>)
    ensures
        match r {
            Some(name) => group_name_of(named_view(named@), g) == Some(name@),
            None => group_name_of(named_view(named@), g) is None,
        },
{
    let mut k: usize = 0;
    assert(named_view(named@).skip(0) =~= named_view(named@));
    while k < named.len()
        invariant
            k <= named@.len(),
            group_name_of(named_view(named@), g) == group_name_of(named_view(named@).skip(k as int), g),
        decreases named@.len() - k,
    {
        assert(named_view(named@).skip(k as int).drop_first() =~= named_view(named@).skip(k + 1));
        assert(named_view(named@).skip(k as int)[0] == (named@[k as int].0, named@[k as int].1@));
        if named[k].0 == g {
            return Some(named[k].1.clone());
        }
        k = k + 1;
    }
    None
}

/// Empties `frequencies` into a list of deltas: group by group in index
/// order, value by value in value order, skipping groups without a name in
/// `named_groups`.
pub fn take_frequencies(frequencies: &mut FrequencyBatch, named_groups: &[(usize, String)]) -> (r: Vec<FrequencyDelta>)
    requires
        old(frequencies).wf(),
    ensures
        final(frequencies).wf(),
        final(frequencies).listing().len() == 0,
        deltas_view(r@) == deltas_of(old(frequencies).listing(), named_view(named_groups@)),
{
    let batch = frequencies.take();
    let groups = batch.groups();
    let ghost l = batch.listing();
    let ghost nv = named_view(named_groups@);
    let mut out: Vec<FrequencyDelta> = Vec::new();
    let mut k: usize = 0;
    while k < groups.len()
        invariant
            k <= groups@.len(),
            groups@.len() == l.len(),
            nv == named_view(named_groups@),
            forall|i: int|
                0 <= i < groups@.len() ==> (#[trigger] groups@[i]).0 == l[i].0 && groups@[i].1.listing() == l[i].1,
            deltas_view(out@) == deltas_of(l.take(k as int), nv),
        decreases groups@.len() - k,
    {
        assert(l.take(k + 1).drop_last() =~= l.take(k as int));
        assert(l.take(k + 1).last() == l[k as int]);
        let group_idx = groups[k].0;
        assert(group_idx == l[k as int].0);
        proof {
            let lk = l.take(k + 1);
            assert(deltas_of(lk, nv) == deltas_of(lk.drop_last(), nv) + match group_name_of(nv, lk.last().0) {
                Some(name) => lk.last().1.map_values(|e: (Seq<char>, u64)| (name, e.0, e.1)),
                None => seq![],
            });
        }
        match find_group_name(named_groups, group_idx) {
            Some(name) => {
                let pairs = groups[k].1.pairs();
                let ghost base = deltas_view(out@);
                let ghost vl = l[k as int].1;
                let mut j: usize = 0;
                while j < pairs.len()
                    invariant
                        j <= pairs@.len(),
                        pairs@.len() == vl.len(),
                        forall|i: int| 0 <= i < pairs@.len() ==> (#[trigger] pairs@[i]).0@ == vl[i].0 && pairs@[i].1 == vl[i].1,
                        deltas_view(out@) == base + vl.take(j as int).map_values(|e: (Seq<char>, u64)| (name@, e.0, e.1)),
                    decreases pairs@.len() - j,
                {
                    let ghost before = out@;
                    let d = FrequencyDelta { group: name.clone(), value: pairs[j].0.clone(), count: pairs[j].1 };
                    out.push(d);
                    assert(deltas_view(out@) =~= deltas_view(before).push(delta_view(d)));
                    assert(vl.take(j + 1).map_values(|e: (Seq<char>, u64)| (name@, e.0, e.1)) =~= vl.take(j as int).map_values(|e: (Seq<char>, u64)| (name@, e.0, e.1)).push((name@, vl[j as int].0, vl[j as int].1)));
                    j = j + 1;
                }
                assert(vl.take(j as int) =~= vl);
            },
            None => {
                assert(deltas_of(l.take(k + 1), nv) =~= deltas_of(l.take(k as int), nv));
            },
        }
        k = k + 1;
    }
    assert(l.take(k as int) =~= l);
    out
}


/// Strictly increasing bucket numbers.
pub open spec fn ascending(s: Seq<u16>) -> bool {
    forall|i: int, j: int| 0 <= i < j < s.len() ==> s[i] < s[j]
}

/// The distinct buckets of `v` in increasing order.
fn sort_buckets(v: &Vec<u16>) -> (r: Vec<u16>)
    ensures
        ascending(r@),
        forall|b: u16| r@.contains(b) <==> v@.contains(b),
{
    let mut out: Vec<u16> = Vec::new();
    let mut i: usize = 0;
    while i < v.len()
        invariant
            i <= v@.len(),
            ascending(out@),
            forall|b: u16| out@.contains(b) <==> v@.take(i as int).contains(b),
        decreases v@.len() - i,
    {
        let x = v[i];
        let mut p: usize = 0;
        while p < out.len() && out[p] < x
            invariant
                p <= out@.len(),
                i < v@.len(),
                x == v@[i as int],
                ascending(out@),
                forall|b: u16| out@.contains(b) <==> v@.take(i as int).contains(b),
                forall|q: int| 0 <= q < p ==> out@[q] < x,
            decreases out@.len() - p,
        {
            p = p + 1;
        }
        let ghost before = out@;
        assert(v@.take(i + 1) =~= v@.take(i as int).push(x));
        if p < out.len() && out[p] == x {
            assert(before.contains(x)) by {
                assert(before[p as int] == x);
            }
            assert(out@ == before);
            assert forall|b: u16| out@.contains(b) <==> (before.contains(b) || b == x) by {
                if b == x {
                    assert(before.contains(x));
                }
            }
        } else {
            out.insert(p, x);
            assert(out@ == before.insert(p as int, x));
            assert forall|q: int, w: int| 0 <= q < w < out@.len() implies out@[q] < out@[w] by {
                if w < p {
                } else if w == p {
                } else if q < p {
                    assert(out@[w] == before[w - 1]);
                    assert(before[w - 1] >= x || w - 1 == p);
                } else if q == p {
                    assert(out@[w] == before[w - 1]);
                    assert(before[p as int] > x);
                    assert(w - 1 == p || before[p as int] < before[w - 1]);
                } else {
                    assert(out@[q] == before[q - 1]);
                    assert(out@[w] == before[w - 1]);
                }
            }
            assert forall|b: u16| out@.contains(b) <==> (before.contains(b) || b == x) by {
                if out@.contains(b) {
                    let k = choose|k: int| 0 <= k < out@.len() && out@[k] == b;
                    if k < p {
                        assert(before[k] == b);
                    } else if k > p {
                        assert(before[k - 1] == b);
                    }
                }
                if before.contains(b) {
                    let k = choose|k: int| 0 <= k < before.len() && before[k] == b;
                    if k < p {
                        assert(out@[k] == b);
                    } else {
                        assert(out@[k + 1] == b);
                    }
                }
                if b == x {
                    assert(out@[p as int] == x);
                }
            }
        }
        proof {
            assert forall|b: u16| v@.take(i + 1).contains(b) <==> (v@.take(i as int).contains(b) || b == x) by {
                vstd::seq_lib::lemma_seq_contains_after_push(v@.take(i as int), x, b);
            }
            assert forall|b: u16| out@.contains(b) <==> v@.take(i + 1).contains(b) by {
                assert(before.contains(b) <==> v@.take(i as int).contains(b));
            }
        }
        i = i + 1;
    }
    assert(v@.take(v@.len() as int) =~= v@);
    out
}

/// A group's part of a match, or an empty span when it took no part.
pub open spec fn span_of(g: Option<(usize, usize, Seq<char>)>) -> (usize, usize, Seq<char>) {
    match g {
        Some(t) => t,
        None => (0usize, 0usize, Seq::empty()),
    }
}

/// A match counts as a hit when its whole match is there and not empty.
pub open spec fn is_hit(m: Seq<Option<(usize, usize, Seq<char>)>>) -> bool {
    m.len() > 0 && m[0] is Some && span_of(m[0]).0 != span_of(m[0]).1
}

/// Whether any of `ms` is a hit.
pub open spec fn has_hit(ms: Seq<Seq<Option<(usize, usize, Seq<char>)>>>) -> bool {
    exists|k: int| 0 <= k < ms.len() && is_hit(#[trigger] ms[k])
}

/// The value counts after counting, for each named group in turn that took
/// part in match `m`, its captured text.
pub open spec fn count_groups(
    groups: Seq<(usize, Seq<(Seq<char>, u64)>)>,
    m: Seq<Option<(usize, usize, Seq<char>)>>,
    named: Seq<(usize, Seq<char>)>,
) -> Seq<(usize, Seq<(Seq<char>, u64)>)>
    decreases named.len(),
{
    if named.len() == 0 {
        groups
    } else {
        let before = count_groups(groups, m, named.drop_last());
        let g = named.last().0;
        if g < m.len() && m[g as int] is Some {
            batch_after_add(before, g, span_of(m[g as int]).2, 1, MAX_FREQUENCY_VALUES_PER_GROUP as nat)
        } else {
            before
        }
    }
}

/// Counting named groups keeps a batch's tables in order.
proof fn lemma_count_groups_in_order(
    groups: Seq<(usize, Seq<(Seq<char>, u64)>)>,
    m: Seq<Option<(usize, usize, Seq<char>)>>,
    named: Seq<(usize, Seq<char>)>,
)
    requires
        batch_wf(groups),
    ensures
        batch_wf(count_groups(groups, m, named)),
    decreases named.len(),
{
    if named.len() > 0 {
        lemma_count_groups_in_order(groups, m, named.drop_last());
        let g = named.last().0;
        if g < m.len() && m[g as int] is Some {
            lemma_batch_after_add(
                count_groups(groups, m, named.drop_last()),
                g,
                span_of(m[g as int]).2,
                1,
                MAX_FREQUENCY_VALUES_PER_GROUP as nat,
                span_of(m[g as int]).2,
            );
        }
    }
}

/// Counting law: counting one more named group `g` of match `m` adds one
/// to the text that `g` captured in `m`, in the table of `g` (a text not
/// counted yet is put in while the table has room for it), and leaves the
/// other values of that table and the tables of all other groups as they
/// were; a named group that took no part in `m` changes nothing.
pub proof fn law_named_group_counts_its_capture(
    groups: Seq<(usize, Seq<(Seq<char>, u64)>)>,
    m: Seq<Option<(usize, usize, Seq<char>)>>,
    named: Seq<(usize, Seq<char>)>,
    g: usize,
    name: Seq<char>,
    k: Seq<char>,
)
    requires
        batch_wf(groups),
    ensures
        ({
            let before = count_groups(groups, m, named);
            let after = count_groups(groups, m, named.push((g, name)));
            &&& batch_wf(after)
            &&& !(g < m.len() && m[g as int] is Some) ==> after == before
            &&& (g < m.len() && m[g as int] is Some) ==> {
                let t = (m[g as int]->0).2;
                &&& forall|h: usize| h != g ==> #[trigger] entry_at(after, h) == entry_at(before, h)
                &&& k != t ==> batch_count(after, g, k) == batch_count(before, g, k)
                &&& batch_count(after, g, t) == match batch_count(before, g, t) {
                    Some(c) => Some(vstd::wrapping::u64_specs::wrapping_add(c, 1)),
                    None => match entry_at(before, g) {
                        Some(table) => if table.len() < MAX_FREQUENCY_VALUES_PER_GROUP {
                            Some(1u64)
                        } else {
                            None
                        },
                        None => Some(1u64),
                    },
                }
            }
        }),
{
    let before = count_groups(groups, m, named);
    let longer = named.push((g, name));
    assert(longer.drop_last() =~= named);
    assert(longer.last() == (g, name));
    lemma_count_groups_in_order(groups, m, named);
    lemma_count_groups_in_order(groups, m, longer);
    if g < m.len() && m[g as int] is Some {
        let t = span_of(m[g as int]).2;
        lemma_batch_after_add(before, g, t, 1, MAX_FREQUENCY_VALUES_PER_GROUP as nat, k);
    }
}

/// What the scan of a chunk has gathered: the matching line numbers, the
/// match map buckets hit, the hit count and the value counts per group.
pub struct ChunkTally {
    pub lines: Seq<LineNumber>,
    pub buckets: Set<u16>,
    pub hits: u64,
    pub groups: Seq<(usize, Seq<(Seq<char>, u64)>)>,
}

/// Nothing gathered yet.
pub open spec fn empty_tally() -> ChunkTally {
    ChunkTally { lines: Seq::empty(), buckets: Set::empty(), hits: 0, groups: Seq::empty() }
}

/// The tally after match `m` of a line starting at byte `offset`: a hit
/// counts once (the count wrapping at 2^64), marks the bucket of its start
/// and counts its named groups; any other match changes nothing.
pub open spec fn tally_match(
    t: ChunkTally,
    m: Seq<Option<(usize, usize, Seq<char>)>>,
    offset: u64,
    file_size: u64,
    named: Seq<(usize, Seq<char>)>,
) -> ChunkTally {
    if is_hit(m) {
        ChunkTally {
            lines: t.lines,
            buckets: t.buckets.insert(
                bucket_of(vstd::wrapping::u64_specs::wrapping_add(offset, span_of(m[0]).0 as u64), file_size),
            ),
            hits: vstd::wrapping::u64_specs::wrapping_add(t.hits, 1),
            groups: count_groups(t.groups, m, named),
        }
    } else {
        t
    }
}

/// The tally after the matches `ms` of one line, in order.
pub open spec fn tally_matches(
    t: ChunkTally,
    ms: Seq<Seq<Option<(usize, usize, Seq<char>)>>>,
    offset: u64,
    file_size: u64,
    named: Seq<(usize, Seq<char>)>,
) -> ChunkTally
    decreases ms.len(),
{
    if ms.len() == 0 {
        t
    } else {
        tally_match(tally_matches(t, ms.drop_last(), offset, file_size, named), ms.last(), offset, file_size, named)
    }
}

/// The plain view of a scanned line: number, starting byte, bytes.
pub open spec fn line_view(l: ScanLine) -> (usize, u64, Seq<u8>) {
    (l.line, l.byte_offset, l.text@)
}

/// The plain view of the lines of a chunk.
pub open spec fn lines_view(v: Seq<ScanLine>) -> Seq<(usize, u64, Seq<u8>)> {
    v.map_values(|l: ScanLine| line_view(l))
}

/// The tally after one line: its bytes are decoded (invalid UTF-8 replaced),
/// its matches tallied, and its number recorded when it had a hit and fits
/// a stored line number.
pub open spec fn tally_line(
    t: ChunkTally,
    re: CompiledRegex,
    line: (usize, u64, Seq<u8>),
    file_size: u64,
    named: Seq<(usize, Seq<char>)>,
) -> ChunkTally {
    let ms = re.matches_in(utf8_lossy(line.2));
    let after = tally_matches(t, ms, line.1, file_size, named);
    if has_hit(ms) && line.0 <= u32::MAX {
        ChunkTally { lines: after.lines.push(line.0 as u32), buckets: after.buckets, hits: after.hits, groups: after.groups }
    } else {
        after
    }
}

/// The tally of a chunk's lines, in order.
pub open spec fn tally_lines(
    re: CompiledRegex,
    lines: Seq<(usize, u64, Seq<u8>)>,
    file_size: u64,
    named: Seq<(usize, Seq<char>)>,
) -> ChunkTally
    decreases lines.len(),
{
    if lines.len() == 0 {
        empty_tally()
    } else {
        tally_line(tally_lines(re, lines.drop_last(), file_size, named), re, lines.last(), file_size, named)
    }
}

/// The executable state of a chunk's scan stands for tally `t`.
spec fn mirrors(
    t: ChunkTally,
    lines: Seq<LineNumber>,
    seen: Seq<bool>,
    buckets: Seq<u16>,
    hits: u64,
    groups: Seq<(usize, Seq<(Seq<char>, u64)>)>,
) -> bool {
    &&& t.lines == lines
    &&& t.hits == hits
    &&& t.groups == groups
    &&& seen.len() == MATCH_MAP_BUCKETS
    &&& forall|b: u16|
        #![trigger t.buckets.contains(b)]
        #![trigger seen[b as int]]
        t.buckets.contains(b) <==> (b < MATCH_MAP_BUCKETS && seen[b as int])
    &&& forall|b: u16| buckets.contains(b) <==> t.buckets.contains(b)
}


/// Counts the text of each named group that took part in match `m`.
fn count_named_groups(
    frequencies: &mut FrequencyBatch,
    m: &Vec<Option<GroupMatch>>,
    named_groups: &[(usize, String)],
)
    requires
        old(frequencies).wf(),
    ensures
        final(frequencies).wf(),
        final(frequencies).listing() == count_groups(
            old(frequencies).listing(),
            m@.map_values(|g: Option<GroupMatch>| group_view(g)),
            named_view(named_groups@),
        ),
{
    let ghost mv = m@.map_values(|g: Option<GroupMatch>| group_view(g));
    let ghost nv = named_view(named_groups@);
    let ghost start = frequencies.listing();
    let mut k: usize = 0;
    while k < named_groups.len()
        invariant
            k <= named_groups@.len(),
            nv == named_view(named_groups@),
            mv == m@.map_values(|g: Option<GroupMatch>| group_view(g)),
            frequencies.wf(),
            frequencies.listing() == count_groups(start, mv, nv.take(k as int)),
        decreases named_groups@.len() - k,
    {
        assert(nv.take(k + 1).drop_last() =~= nv.take(k as int));
        assert(nv.take(k + 1).last() == (named_groups@[k as int].0, named_groups@[k as int].1@));
        let g = named_groups[k].0;
        if g < m.len() {
            match &m[g] {
                Some(value) => {
                    assert(mv[g as int] == group_view(m@[g as int]));
                    increment_frequency(frequencies, g, value.text.as_str());
                },
                None => {},
            }
        }
        k = k + 1;
    }
    assert(nv.take(named_groups@.len() as int) =~= nv);
}

/// Scans one chunk of lines: each line's bytes are decoded (invalid UTF-8
/// replaced), every non-empty match is a hit that marks the match map bucket
/// of its start and counts the text of each named group that took part, and
/// a line with a hit is recorded. The batch carries the matching lines in
/// order, the buckets hit in increasing order, the hit count, the value
/// counts as deltas of the named groups, and the chunk's progress.
pub fn process_chunk(
    generation: u64,
    re: &CompiledRegex,
    named_groups: &[(usize, String)],
    file_size: u64,
    work: WorkChunk,
) -> (r: ScanMessage)
    ensures
        ({
            let t = tally_lines(*re, lines_view(work.lines@), file_size, named_view(named_groups@));
            match r {
                ScanMessage::Batch {
                    generation: g,
                    chunk_index,
                    matching_lines,
                    map_buckets,
                    hit_count,
                    frequencies,
                    bytes_scanned,
                    lines_scanned,
                } => {
                    &&& g == generation
                    &&& chunk_index == work.index
                    &&& matching_lines@ == t.lines
                    &&& ascending(map_buckets@)
                    &&& forall|b: u16| map_buckets@.contains(b) <==> t.buckets.contains(b)
                    &&& hit_count == t.hits
                    &&& deltas_view(frequencies@) == deltas_of(t.groups, named_view(named_groups@))
                    &&& bytes_scanned == work.bytes_scanned
                    &&& lines_scanned == work.lines_scanned
                },
                _ => false,
            }
        }),
{
    let WorkChunk { index, lines, bytes_scanned, lines_scanned } = work;
    let ghost lv = lines_view(lines@);
    let ghost nv = named_view(named_groups@);
    let mut matching_lines: Vec<LineNumber> = Vec::new();
    let mut map_buckets: Vec<u16> = Vec::new();
    let mut bucket_seen: Vec<bool> = Vec::new();
    while bucket_seen.len() < 8192
        invariant
            bucket_seen@.len() <= MATCH_MAP_BUCKETS,
            forall|b: int| 0 <= b < bucket_seen@.len() ==> !bucket_seen@[b],
        decreases MATCH_MAP_BUCKETS - bucket_seen@.len(),
    {
        bucket_seen.push(false);
    }
    let mut hit_count: u64 = 0;
    let mut frequencies = FrequencyBatch::new();
    assert(lv.take(0) =~= Seq::<(usize, u64, Seq<u8>)>::empty());
    let mut i: usize = 0;
    while i < lines.len()
        invariant
            i <= lines@.len(),
            lv == lines_view(lines@),
            nv == named_view(named_groups@),
            frequencies.wf(),
            mirrors(
                tally_lines(*re, lv.take(i as int), file_size, nv),
                matching_lines@,
                bucket_seen@,
                map_buckets@,
                hit_count,
                frequencies.listing(),
            ),
        decreases lines@.len() - i,
    {
        let line = &lines[i];
        assert(lv.take(i + 1).drop_last() =~= lv.take(i as int));
        assert(lv.take(i + 1).last() == line_view(*line));
        let ghost before = tally_lines(*re, lv.take(i as int), file_size, nv);
        let text = decode_lossy(line.text.as_slice());
        let caps = captures_in(re, text.as_str());
        let ghost ms = matches_view(caps@);
        assert(ms == re.matches_in(utf8_lossy(line_view(*line).2)));
        let mut line_matched = false;
        let mut j: usize = 0;
        assert(ms.take(0) =~= Seq::<Seq<Option<(usize, usize, Seq<char>)>>>::empty());
        while j < caps.len()
            invariant
                j <= caps@.len(),
                ms == matches_view(caps@),
                nv == named_view(named_groups@),
                forall|k: int| 0 <= k < caps@.len() ==> (#[trigger] caps@[k])@.len() >= 1 && caps@[k]@[0] is Some,
                frequencies.wf(),
                line_matched == has_hit(ms.take(j as int)),
                mirrors(
                    tally_matches(before, ms.take(j as int), line.byte_offset, file_size, nv),
                    matching_lines@,
                    bucket_seen@,
                    map_buckets@,
                    hit_count,
                    frequencies.listing(),
                ),
            decreases caps@.len() - j,
        {
            let m = &caps[j];
            let ghost mv = m@.map_values(|g: Option<GroupMatch>| group_view(g));
            assert(ms[j as int] == mv);
            assert(ms.take(j + 1).drop_last() =~= ms.take(j as int));
            assert(ms.take(j + 1).last() == mv);
            let ghost cur = tally_matches(before, ms.take(j as int), line.byte_offset, file_size, nv);
            match &m[0] {
                Some(whole) => {
                    assert(mv[0] == group_view(m@[0]));
                    if whole.start != whole.end {
                        assert(is_hit(mv));
                        hit_count = hit_count.wrapping_add(1);
                        line_matched = true;
                        let at = line.byte_offset.wrapping_add(whole.start as u64);
                        let ghost bk = bucket_of(at, file_size);
                        let ghost seen_before = bucket_seen@;
                        let ghost list_before = map_buckets@;
                        mark_match_bucket(&mut bucket_seen, &mut map_buckets, at, file_size);
                        proof {
                            let nb = cur.buckets.insert(bk);
                            assert forall|b: u16| nb.contains(b) <==> (b < MATCH_MAP_BUCKETS && bucket_seen@[b as int]) by {
                                if b < MATCH_MAP_BUCKETS {
                                    assert(cur.buckets.contains(b) <==> seen_before[b as int]);
                                }
                            }
                            assert forall|b: u16| map_buckets@.contains(b) <==> nb.contains(b) by {
                                vstd::seq_lib::lemma_seq_contains_after_push(list_before, bk, b);
                                assert(list_before.contains(b) <==> cur.buckets.contains(b));
                                if seen_before[bk as int] {
                                    assert(cur.buckets.contains(bk));
                                }
                            }
                        }
                        count_named_groups(&mut frequencies, m, named_groups);
                        assert(ms.take(j + 1)[j as int] == mv);
                    } else {
                        assert(!is_hit(mv));
                        proof {
                            if has_hit(ms.take(j + 1)) {
                                let k = choose|k: int| 0 <= k < ms.take(j + 1).len() && is_hit(#[trigger] ms.take(j + 1)[k]);
                                assert(k < j);
                                assert(ms.take(j as int)[k] == ms.take(j + 1)[k]);
                            }
                            if has_hit(ms.take(j as int)) {
                                let k = choose|k: int| 0 <= k < ms.take(j as int).len() && is_hit(#[trigger] ms.take(j as int)[k]);
                                assert(ms.take(j as int)[k] == ms.take(j + 1)[k]);
                            }
                        }
                    }
                },
                None => {
                    assert(false);
                },
            }
            j = j + 1;
        }
        assert(ms.take(caps@.len() as int) =~= ms);
        if line_matched {
            match to_line_number(line.line) {
                Some(n) => {
                    matching_lines.push(n);
                },
                None => {},
            }
        }
        i = i + 1;
    }
    assert(lv.take(lines@.len() as int) =~= lv);
    let sorted = sort_buckets(&map_buckets);
    let deltas = take_frequencies(&mut frequencies, named_groups);
    ScanMessage::Batch {
        generation,
        chunk_index: index,
        matching_lines,
        map_buckets: sorted,
        hit_count,
        frequencies: deltas,
        bytes_scanned,
        lines_scanned,
    }
}


/// A batch of the current scan, kept until the batches of all chunks
/// before it have been applied.
pub struct PendingBatch {
    pub matching_lines: Vec<LineNumber>,
    pub map_buckets: Vec<u16>,
    pub hit_count: u64,
    pub frequencies: Vec<FrequencyDelta>,
    pub bytes_scanned: u64,
    pub lines_scanned: usize,
}

/// The plain content of a batch.
pub struct BatchSummary {
    pub lines: Seq<LineNumber>,
    pub buckets: Seq<u16>,
    pub hits: u64,
    pub deltas: Seq<(Seq<char>, Seq<char>, u64)>,
    pub bytes: u64,
    pub lines_scanned: usize,
}

/// The plain content of a pending batch.
pub open spec fn summary_of(b: PendingBatch) -> BatchSummary {
    BatchSummary {
        lines: b.matching_lines@,
        buckets: b.map_buckets@,
        hits: b.hit_count,
        deltas: deltas_view(b.frequencies@),
        bytes: b.bytes_scanned,
        lines_scanned: b.lines_scanned,
    }
}

/// What the index has gathered: matching lines, match map buckets, hit
/// count, value counts per group name, and scan progress.
pub struct Found {
    pub lines: Seq<LineNumber>,
    pub buckets: Seq<u16>,
    pub hits: u64,
    pub groups: Seq<(Seq<char>, Seq<(Seq<char>, u64)>)>,
    pub bytes: u64,
    pub lines_scanned: usize,
}

/// Nothing gathered.
pub open spec fn nothing_found() -> Found {
    Found { lines: Seq::empty(), buckets: Seq::empty(), hits: 0, groups: Seq::empty(), bytes: 0, lines_scanned: 0 }
}

/// `s` followed by the items of `xs`, each left out when it equals the item
/// just before it.
pub open spec fn append_new<T>(s: Seq<T>, xs: Seq<T>) -> Seq<T>
    decreases xs.len(),
{
    if xs.len() == 0 {
        s
    } else {
        let before = append_new(s, xs.drop_last());
        if before.len() > 0 && before.last() == xs.last() {
            before
        } else {
            before.push(xs.last())
        }
    }
}

/// The group tables after adding each delta in turn, a new value only
/// while its group has fewer than `MAX_FREQUENCY_VALUES_PER_GROUP` values.
pub open spec fn apply_deltas(
    groups: Seq<(Seq<char>, Seq<(Seq<char>, u64)>)>,
    ds: Seq<(Seq<char>, Seq<char>, u64)>,
) -> Seq<(Seq<char>, Seq<(Seq<char>, u64)>)>
    decreases ds.len(),
{
    if ds.len() == 0 {
        groups
    } else {
        let d = ds.last();
        groups_after_add(apply_deltas(groups, ds.drop_last()), d.0, d.1, d.2, MAX_FREQUENCY_VALUES_PER_GROUP as nat)
    }
}

/// What the index has gathered after one more batch: its lines and buckets
/// appended (an item equal to the last one is not repeated), its hits added
/// (wrapping at 2^64), its deltas counted, and the progress the larger of
/// the two.
pub open spec fn apply_batch(f: Found, b: BatchSummary) -> Found {
    Found {
        lines: append_new(f.lines, b.lines),
        buckets: append_new(f.buckets, b.buckets),
        hits: vstd::wrapping::u64_specs::wrapping_add(f.hits, b.hits),
        groups: apply_deltas(f.groups, b.deltas),
        bytes: if b.bytes > f.bytes { b.bytes } else { f.bytes },
        lines_scanned: if b.lines_scanned > f.lines_scanned { b.lines_scanned } else { f.lines_scanned },
    }
}

/// The sum, wrapping at 2^64, of the amounts that the deltas `ds` add to
/// value `k` of the group named `g`.
pub open spec fn delta_sum(ds: Seq<(Seq<char>, Seq<char>, u64)>, g: Seq<char>, k: Seq<char>) -> u64
    decreases ds.len(),
{
    if ds.len() == 0 {
        0
    } else {
        let before = delta_sum(ds.drop_last(), g, k);
        if ds.last().0 == g && ds.last().1 == k {
            vstd::wrapping::u64_specs::wrapping_add(before, ds.last().2)
        } else {
            before
        }
    }
}

/// Wrapping addition is associative.
proof fn lemma_wrapping_add_assoc(a: u64, b: u64, c: u64)
    ensures
        vstd::wrapping::u64_specs::wrapping_add(vstd::wrapping::u64_specs::wrapping_add(a, b), c)
            == vstd::wrapping::u64_specs::wrapping_add(a, vstd::wrapping::u64_specs::wrapping_add(b, c)),
{
}

/// Adding deltas keeps the group tables well formed and adds to each value
/// already counted the sum of its deltas.
proof fn lemma_apply_deltas(
    groups: Seq<(Seq<char>, Seq<(Seq<char>, u64)>)>,
    ds: Seq<(Seq<char>, Seq<char>, u64)>,
    g: Seq<char>,
    k: Seq<char>,
)
    requires
        groups_wf(groups),
    ensures
        groups_wf(apply_deltas(groups, ds)),
        group_count(groups, g, k) matches Some(c) ==> group_count(apply_deltas(groups, ds), g, k) == Some(
            vstd::wrapping::u64_specs::wrapping_add(c, delta_sum(ds, g, k)),
        ),
    decreases ds.len(),
{
    if ds.len() == 0 {
        if let Some(c) = group_count(groups, g, k) {
            assert(vstd::wrapping::u64_specs::wrapping_add(c, 0) == c);
        }
    } else {
        let front = ds.drop_last();
        let d = ds.last();
        lemma_apply_deltas(groups, front, g, k);
        let mid = apply_deltas(groups, front);
        lemma_groups_after_add(mid, d.0, d.1, d.2, MAX_FREQUENCY_VALUES_PER_GROUP as nat, g, k);
        if let Some(c) = group_count(groups, g, k) {
            lemma_wrapping_add_assoc(c, delta_sum(front, g, k), d.2);
        }
    }
}

/// Counting law: applying a batch only adds to the value counts gathered
/// so far. Each value already counted has its count grown by exactly the
/// amounts the batch's deltas add to it (wrapping at 2^64), so a batch
/// without deltas leaves every table as it was; the tables stay in order.
pub proof fn law_batch_adds_to_counts(f: Found, b: BatchSummary, g: Seq<char>, k: Seq<char>)
    requires
        groups_wf(f.groups),
    ensures
        groups_wf(apply_batch(f, b).groups),
        b.deltas.len() == 0 ==> apply_batch(f, b).groups == f.groups,
        group_count(f.groups, g, k) matches Some(c) ==> group_count(apply_batch(f, b).groups, g, k) == Some(
            vstd::wrapping::u64_specs::wrapping_add(c, delta_sum(b.deltas, g, k)),
        ),
{
    lemma_apply_deltas(f.groups, b.deltas, g, k);
}

/// The plain state of a match index.
pub struct IndexState {
    pub generation: u64,
    pub next_chunk: usize,
    pub pending: Map<usize, BatchSummary>,
    pub found: Found,
    pub file_size: u64,
    pub complete: bool,
    pub error: Option<Seq<char>>,
}

/// Applies the waiting batches while the next chunk's batch is there.
pub open spec fn settle(v: IndexState) -> IndexState
    decreases v.pending.dom().len(),
    when v.pending.dom().finite()
{
    if v.next_chunk < usize::MAX && v.pending.contains_key(v.next_chunk) {
        settle(
            IndexState {
                generation: v.generation,
                next_chunk: (v.next_chunk + 1) as usize,
                pending: v.pending.remove(v.next_chunk),
                found: apply_batch(v.found, v.pending[v.next_chunk]),
                file_size: v.file_size,
                complete: v.complete,
                error: v.error,
            },
        )
    } else {
        v
    }
}

/// The state after one message. A message of another scan changes
/// nothing. A batch waits under its chunk index, and then every batch
/// whose chunks before it have all been applied is applied in chunk order.
/// The end of the scan sets the progress and marks the scan complete; an
/// error is kept and marks it complete too.
pub open spec fn after_message(v: IndexState, m: ScanMessage) -> IndexState {
    match m {
        ScanMessage::Batch {
            generation,
            chunk_index,
            matching_lines,
            map_buckets,
            hit_count,
            frequencies,
            bytes_scanned,
            lines_scanned,
        } => if generation == v.generation {
            settle(
                IndexState {
                    generation: v.generation,
                    next_chunk: v.next_chunk,
                    pending: v.pending.insert(
                        chunk_index,
                        BatchSummary {
                            lines: matching_lines@,
                            buckets: map_buckets@,
                            hits: hit_count,
                            deltas: deltas_view(frequencies@),
                            bytes: bytes_scanned,
                            lines_scanned,
                        },
                    ),
                    found: v.found,
                    file_size: v.file_size,
                    complete: v.complete,
                    error: v.error,
                },
            )
        } else {
            v
        },
        ScanMessage::Done { generation, bytes_scanned, lines_scanned } => if generation == v.generation {
            IndexState {
                generation: v.generation,
                next_chunk: v.next_chunk,
                pending: v.pending,
                found: Found {
                    lines: v.found.lines,
                    buckets: v.found.buckets,
                    hits: v.found.hits,
                    groups: v.found.groups,
                    bytes: bytes_scanned,
                    lines_scanned,
                },
                file_size: v.file_size,
                complete: true,
                error: v.error,
            }
        } else {
            v
        },
        ScanMessage::Error { generation, message } => if generation == v.generation {
            IndexState {
                generation: v.generation,
                next_chunk: v.next_chunk,
                pending: v.pending,
                found: v.found,
                file_size: v.file_size,
                complete: true,
                error: Some(message@),
            }
        } else {
            v
        },
    }
}

/// The state after each of `ms` in turn.
pub open spec fn after_messages(v: IndexState, ms: Seq<ScanMessage>) -> IndexState
    decreases ms.len(),
{
    if ms.len() == 0 {
        v
    } else {
        after_message(after_messages(v, ms.drop_last()), ms.last())
    }
}

/// The state of an index with no scan yet, or a fresh scan of generation
/// `generation` over a file of `file_size` bytes.
pub open spec fn fresh_state(generation: u64, file_size: u64, complete: bool) -> IndexState {
    IndexState {
        generation,
        next_chunk: 0,
        pending: Map::empty(),
        found: nothing_found(),
        file_size,
        complete,
        error: None,
    }
}

/// Whether two gatherings agree on lines, buckets, hits and value counts.
pub open spec fn same_matches(a: Found, b: Found) -> bool {
    &&& a.lines == b.lines
    &&& a.buckets == b.buckets
    &&& a.hits == b.hits
    &&& a.groups == b.groups
}

/// The gathering of the batches of chunks `0..n` of `arrived`, applied in
/// chunk order.
pub open spec fn applied(arrived: Map<usize, BatchSummary>, n: nat) -> Found
    decreases n,
{
    if n == 0 {
        nothing_found()
    } else {
        apply_batch(applied(arrived, (n - 1) as nat), arrived[(n - 1) as usize])
    }
}

/// State `v` holds what the batches `arrived` of its scan give when
/// applied in chunk order, some of them possibly still waiting: the chunks
/// before `next_chunk` have all arrived and been applied, and exactly the
/// later ones that arrived wait.
pub open spec fn staged(v: IndexState, arrived: Map<usize, BatchSummary>) -> bool {
    &&& v.pending.dom().finite()
    &&& forall|k: usize| k < v.next_chunk ==> #[trigger] arrived.contains_key(k)
    &&& forall|k: usize| #[trigger] v.pending.contains_key(k) <==> (k >= v.next_chunk && arrived.contains_key(k))
    &&& forall|k: usize| #[trigger] v.pending.contains_key(k) ==> v.pending[k] == arrived[k]
    &&& same_matches(v.found, applied(arrived, v.next_chunk as nat))
}

/// State `v` holds what the batches `arrived` give when applied in chunk
/// order, and nothing more can be applied: the next chunk's batch (if a
/// chunk can follow) has not arrived.
pub open spec fn in_order(v: IndexState, arrived: Map<usize, BatchSummary>) -> bool {
    &&& staged(v, arrived)
    &&& (v.next_chunk == usize::MAX || !v.pending.contains_key(v.next_chunk))
}

/// Applying a batch to two gatherings that agree keeps them agreeing.
proof fn lemma_apply_same(a: Found, b: Found, x: BatchSummary)
    requires
        same_matches(a, b),
    ensures
        same_matches(apply_batch(a, x), apply_batch(b, x)),
{
}

/// A batch of a chunk at or after `n` does not change what chunks `0..n`
/// give.
proof fn lemma_applied_prefix(arrived: Map<usize, BatchSummary>, c: usize, x: BatchSummary, n: nat)
    requires
        c >= n,
    ensures
        applied(arrived.insert(c, x), n) == applied(arrived, n),
    decreases n,
{
    if n > 0 {
        lemma_applied_prefix(arrived, c, x, (n - 1) as nat);
        assert(arrived.insert(c, x)[(n - 1) as usize] == arrived[(n - 1) as usize]);
    }
}

/// Settling a staged state applies every batch that can be applied, in
/// chunk order, and touches nothing else.
proof fn lemma_settle(v: IndexState, arrived: Map<usize, BatchSummary>)
    requires
        staged(v, arrived),
    ensures
        in_order(settle(v), arrived),
        settle(v).generation == v.generation,
        settle(v).file_size == v.file_size,
        settle(v).complete == v.complete,
        settle(v).error == v.error,
    decreases v.pending.dom().len(),
{
    if v.next_chunk < usize::MAX && v.pending.contains_key(v.next_chunk) {
        let n = v.next_chunk;
        let w = IndexState {
            generation: v.generation,
            next_chunk: (n + 1) as usize,
            pending: v.pending.remove(n),
            found: apply_batch(v.found, v.pending[n]),
            file_size: v.file_size,
            complete: v.complete,
            error: v.error,
        };
        assert(settle(v) == settle(w));
        assert(arrived.contains_key(n));
        assert(applied(arrived, (n + 1) as nat) == apply_batch(applied(arrived, n as nat), arrived[n]));
        lemma_apply_same(v.found, applied(arrived, n as nat), arrived[n]);
        assert(w.pending.dom() =~= v.pending.dom().remove(n));
        assert forall|k: usize| k < w.next_chunk implies #[trigger] arrived.contains_key(k) by {
            if k < n {
                assert(arrived.contains_key(k));
            }
        }
        assert forall|k: usize| #[trigger] w.pending.contains_key(k) <==> (k >= w.next_chunk && arrived.contains_key(k)) by {
            assert(v.pending.contains_key(k) <==> (k >= n && arrived.contains_key(k)));
        }
        assert forall|k: usize| #[trigger] w.pending.contains_key(k) implies w.pending[k] == arrived[k] by {
            assert(v.pending.contains_key(k));
        }
        lemma_settle(w, arrived);
    }
}

/// Chunk order law: an index in chunk order has applied exactly the
/// batches of chunks `0..n` in chunk order, `n` being its next chunk, the
/// least chunk index whose batch has not arrived (or the last index there
/// is): its matching lines and buckets are theirs one after another, an
/// item equal to the one before it left out, and its hits their sum
/// (wrapping at 2^64); every later batch that arrived waits, unapplied.
pub proof fn law_chunk_order(v: IndexState, arrived: Map<usize, BatchSummary>)
    requires
        in_order(v, arrived),
    ensures
        forall|k: usize| k < v.next_chunk ==> #[trigger] arrived.contains_key(k),
        v.next_chunk == usize::MAX || !arrived.contains_key(v.next_chunk),
        v.found.lines == applied(arrived, v.next_chunk as nat).lines,
        v.found.buckets == applied(arrived, v.next_chunk as nat).buckets,
        v.found.hits == applied(arrived, v.next_chunk as nat).hits,
        v.found.groups == applied(arrived, v.next_chunk as nat).groups,
        forall|k: usize|
            #[trigger] v.pending.contains_key(k) <==> (k >= v.next_chunk && arrived.contains_key(k)),
        forall|k: usize| #[trigger] v.pending.contains_key(k) ==> v.pending[k] == arrived[k],
{
    if v.next_chunk < usize::MAX {
        assert(!v.pending.contains_key(v.next_chunk));
    }
}

/// Chunk order: two states that hold the same arrived batches of a scan,
/// each applied in chunk order as far as it can be, agree on the next
/// chunk, on the batches still waiting and on the lines, buckets, hits and
/// value counts gathered, whatever order the batches arrived in.
pub proof fn law_arrival_order_irrelevant(a: IndexState, b: IndexState, arrived: Map<usize, BatchSummary>)
    requires
        in_order(a, arrived),
        in_order(b, arrived),
    ensures
        a.next_chunk == b.next_chunk,
        a.pending == b.pending,
        same_matches(a.found, b.found),
{
    if a.next_chunk < b.next_chunk {
        assert(arrived.contains_key(a.next_chunk));
        assert(a.pending.contains_key(a.next_chunk));
    } else if b.next_chunk < a.next_chunk {
        assert(arrived.contains_key(b.next_chunk));
        assert(b.pending.contains_key(b.next_chunk));
    }
    assert(a.pending =~= b.pending) by {
        assert forall|k: usize| a.pending.contains_key(k) <==> b.pending.contains_key(k) by {}
        assert forall|k: usize| a.pending.contains_key(k) implies a.pending[k] == b.pending[k] by {
            assert(b.pending.contains_key(k));
        }
    }
}

/// Batches of distinct chunks give the same arrived set in either order.
pub proof fn law_two_batches_commute(
    arrived: Map<usize, BatchSummary>,
    c1: usize,
    x1: BatchSummary,
    c2: usize,
    x2: BatchSummary,
)
    requires
        c1 != c2,
    ensures
        arrived.insert(c1, x1).insert(c2, x2) == arrived.insert(c2, x2).insert(c1, x1),
{
    assert(arrived.insert(c1, x1).insert(c2, x2) =~= arrived.insert(c2, x2).insert(c1, x1));
}

/// A fresh batch of the scan, with a chunk index that has not arrived yet,
/// keeps a state in chunk order, now with that batch among the arrived
/// ones.
proof fn lemma_fresh_batch(v: IndexState, arrived: Map<usize, BatchSummary>, c: usize, x: BatchSummary)
    requires
        in_order(v, arrived),
        !arrived.contains_key(c),
    ensures
        in_order(
            settle(
                IndexState {
                    generation: v.generation,
                    next_chunk: v.next_chunk,
                    pending: v.pending.insert(c, x),
                    found: v.found,
                    file_size: v.file_size,
                    complete: v.complete,
                    error: v.error,
                },
            ),
            arrived.insert(c, x),
        ),
{
    let a2 = arrived.insert(c, x);
    let w = IndexState {
        generation: v.generation,
        next_chunk: v.next_chunk,
        pending: v.pending.insert(c, x),
        found: v.found,
        file_size: v.file_size,
        complete: v.complete,
        error: v.error,
    };
    if c < v.next_chunk {
        assert(arrived.contains_key(c));
    }
    lemma_applied_prefix(arrived, c, x, v.next_chunk as nat);
    assert(w.pending.dom() =~= v.pending.dom().insert(c));
    assert forall|k: usize| k < w.next_chunk implies #[trigger] a2.contains_key(k) by {
        assert(arrived.contains_key(k));
    }
    assert forall|k: usize| #[trigger] w.pending.contains_key(k) <==> (k >= w.next_chunk && a2.contains_key(k)) by {
        assert(v.pending.contains_key(k) <==> (k >= v.next_chunk && arrived.contains_key(k)));
    }
    assert forall|k: usize| #[trigger] w.pending.contains_key(k) implies w.pending[k] == a2[k] by {
        if k != c {
            assert(v.pending.contains_key(k));
        }
    }
    lemma_settle(w, a2);
}


/// Appends `lines`, leaving out a line equal to the one just before it.
fn apply_matching_lines(dst: &mut Vec<LineNumber>, lines: &Vec<LineNumber>)
    ensures
        final(dst)@ == append_new(old(dst)@, lines@),
{
    let ghost start = dst@;
    let mut i: usize = 0;
    while i < lines.len()
        invariant
            i <= lines@.len(),
            dst@ == append_new(start, lines@.take(i as int)),
        decreases lines@.len() - i,
    {
        assert(lines@.take(i + 1).drop_last() =~= lines@.take(i as int));
        let line = lines[i];
        let n = dst.len();
        if n == 0 || dst[n - 1] != line {
            dst.push(line);
        }
        i = i + 1;
    }
    assert(lines@.take(lines@.len() as int) =~= lines@);
}

/// Appends `buckets`, leaving out a bucket equal to the one just before it.
fn apply_map_buckets(dst: &mut Vec<u16>, buckets: &Vec<u16>)
    ensures
        final(dst)@ == append_new(old(dst)@, buckets@),
{
    let ghost start = dst@;
    let mut i: usize = 0;
    while i < buckets.len()
        invariant
            i <= buckets@.len(),
            dst@ == append_new(start, buckets@.take(i as int)),
        decreases buckets@.len() - i,
    {
        assert(buckets@.take(i + 1).drop_last() =~= buckets@.take(i as int));
        let bucket = buckets[i];
        let n = dst.len();
        if n == 0 || dst[n - 1] != bucket {
            dst.push(bucket);
        }
        i = i + 1;
    }
    assert(buckets@.take(buckets@.len() as int) =~= buckets@);
}

/// Counts each delta in turn into `frequencies`.
fn apply_frequencies(frequencies: &mut GroupFrequencies, deltas: &Vec<FrequencyDelta>)
    requires
        old(frequencies).wf(),
    ensures
        final(frequencies).wf(),
        final(frequencies).listing() == apply_deltas(old(frequencies).listing(), deltas_view(deltas@)),
{
    let ghost start = frequencies.listing();
    let ghost dv = deltas_view(deltas@);
    let mut i: usize = 0;
    while i < deltas.len()
        invariant
            i <= deltas@.len(),
            dv == deltas_view(deltas@),
            frequencies.wf(),
            frequencies.listing() == apply_deltas(start, dv.take(i as int)),
        decreases deltas@.len() - i,
    {
        assert(dv.take(i + 1).drop_last() =~= dv.take(i as int));
        assert(dv.take(i + 1).last() == delta_view(deltas@[i as int]));
        let d = &deltas[i];
        let group = chars_of(d.group.as_str());
        let value = chars_of(d.value.as_str());
        frequencies.add_capped(group.as_slice(), value.as_slice(), d.count, MAX_FREQUENCY_VALUES_PER_GROUP);
        i = i + 1;
    }
    assert(dv.take(deltas@.len() as int) =~= dv);
}

/// The match index of the current scan: the batches of its chunks are
/// applied in chunk order whatever order they arrive in, and messages of
/// earlier scans are ignored.
pub struct MatchIndex {
    matching_lines: Vec<LineNumber>,
    pub hit_count: u64,
    pub bytes_scanned: u64,
    pub lines_scanned: usize,
    pub file_size: u64,
    pub complete: bool,
    pub error: Option<String>,
    pub frequencies: GroupFrequencies,
    map_buckets: Vec<u16>,
    generation: u64,
    next_chunk: usize,
    pending: std::collections::BTreeMap<usize, PendingBatch>,
    arrived: Ghost<Map<usize, BatchSummary>>,
}

/// The plain form of an optional message.
pub open spec fn text_of(e: Option<String>) -> Option<Seq<char>> {
    match e {
        Some(s) => Some(s@),
        None => None,
    }
}

/// The batches of scan `g` that have arrived after messages `ms` came on
/// top of `arrived`: each batch of that scan is put under its chunk index,
/// every other message leaves them as they are.
pub open spec fn arrivals(arrived: Map<usize, BatchSummary>, g: u64, ms: Seq<ScanMessage>) -> Map<
    usize,
    BatchSummary,
>
    decreases ms.len(),
{
    if ms.len() == 0 {
        arrived
    } else {
        let before = arrivals(arrived, g, ms.drop_last());
        match ms.last() {
            ScanMessage::Batch {
                generation,
                chunk_index,
                matching_lines,
                map_buckets,
                hit_count,
                frequencies,
                bytes_scanned,
                lines_scanned,
            } => if generation == g {
                before.insert(
                    chunk_index,
                    BatchSummary {
                        lines: matching_lines@,
                        buckets: map_buckets@,
                        hits: hit_count,
                        deltas: deltas_view(frequencies@),
                        bytes: bytes_scanned,
                        lines_scanned,
                    },
                )
            } else {
                before
            },
            _ => before,
        }
    }
}

/// Whether each batch of scan `g` among `ms` comes for a chunk that had
/// not arrived before it (in `arrived` or earlier in `ms`), as the chunks
/// of one scan each come once.
pub open spec fn fresh_chunks(arrived: Map<usize, BatchSummary>, g: u64, ms: Seq<ScanMessage>) -> bool
    decreases ms.len(),
{
    if ms.len() == 0 {
        true
    } else {
        &&& fresh_chunks(arrived, g, ms.drop_last())
        &&& match ms.last() {
            ScanMessage::Batch { generation, chunk_index, .. } => generation == g
                ==> !arrivals(arrived, g, ms.drop_last()).contains_key(chunk_index),
            _ => true,
        }
    }
}

impl MatchIndex {
    /// The plain state of the index.
    pub closed spec fn view(&self) -> IndexState {
        IndexState {
            generation: self.generation,
            next_chunk: self.next_chunk,
            pending: self.pending@.map_values(|b: PendingBatch| summary_of(b)),
            found: Found {
                lines: self.matching_lines@,
                buckets: self.map_buckets@,
                hits: self.hit_count,
                groups: self.frequencies.listing(),
                bytes: self.bytes_scanned,
                lines_scanned: self.lines_scanned,
            },
            file_size: self.file_size,
            complete: self.complete,
            error: text_of(self.error),
        }
    }

    /// The batches of the current scan that have arrived, by chunk index.
    pub closed spec fn arrived(&self) -> Map<usize, BatchSummary> {
        self.arrived@
    }

    /// The value counts are well formed.
    pub closed spec fn wf(&self) -> bool {
        self.frequencies.wf()
    }

    /// The index holds what its arrived batches give in chunk order.
    pub open spec fn ordered(&self) -> bool {
        in_order(self.view(), self.arrived())
    }

    /// The value counts of a well-formed index are in order, as the
    /// counting law asks (`law_batch_adds_to_counts`).
    pub proof fn lemma_counts_in_order(&self)
        requires
            self.wf(),
        ensures
            groups_wf(self@.found.groups),
    {
        self.frequencies.lemma_listing_in_order();
    }

    proof fn lemma_pending_finite(&self)
        ensures
            self.view().pending.dom().finite(),
            self.view().pending.dom() == self.pending@.dom(),
    {
        assert(self.view().pending.dom() =~= self.pending@.dom());
    }

    /// An index with no scan: empty and complete.
    pub fn new() -> (r: Self)
        ensures
            r.wf(),
            r@ == fresh_state(0, 0, true),
            r.arrived() == Map::<usize, BatchSummary>::empty(),
            r.ordered(),
    {
        let r = MatchIndex {
            matching_lines: Vec::new(),
            hit_count: 0,
            bytes_scanned: 0,
            lines_scanned: 0,
            file_size: 0,
            complete: true,
            error: None,
            frequencies: GroupFrequencies::new(),
            map_buckets: Vec::new(),
            generation: 0,
            next_chunk: 0,
            pending: std::collections::BTreeMap::new(),
            arrived: Ghost(Map::empty()),
        };
        assert(r@.pending =~= Map::<usize, BatchSummary>::empty());
        assert(r@ == fresh_state(0, 0, true));
        r
    }

    /// Empties the index for a new scan of a file of `file_size` bytes and
    /// returns the new scan's generation, the one after the last: messages
    /// of earlier scans are ignored from now on (`law_earlier_scans_ignored`).
    pub fn start(&mut self, file_size: u64) -> (generation: u64)
        ensures
            final(self).wf(),
            generation == vstd::wrapping::u64_specs::wrapping_add(old(self)@.generation, 1),
            generation == generation_after(old(self)@.generation, 1),
            final(self)@ == fresh_state(generation, file_size, false),
            final(self).arrived() == Map::<usize, BatchSummary>::empty(),
            final(self).ordered(),
    {
        let ghost g = self@.generation;
        assert(generation_after(g, 0) == g);
        self.reset(file_size, false);
        self.generation
    }

    /// Empties the index and drops the current scan: messages of earlier
    /// scans are ignored from now on (`law_earlier_scans_ignored`).
    pub fn clear(&mut self)
        ensures
            final(self).wf(),
            final(self)@.generation == generation_after(old(self)@.generation, 1),
            final(self)@ == fresh_state(
                vstd::wrapping::u64_specs::wrapping_add(old(self)@.generation, 1),
                0,
                true,
            ),
            final(self).arrived() == Map::<usize, BatchSummary>::empty(),
            final(self).ordered(),
    {
        let ghost g = self@.generation;
        assert(generation_after(g, 0) == g);
        self.reset(0, true);
    }

    fn reset(&mut self, file_size: u64, complete: bool)
        ensures
            final(self).wf(),
            final(self)@ == fresh_state(
                vstd::wrapping::u64_specs::wrapping_add(old(self)@.generation, 1),
                file_size,
                complete,
            ),
            final(self).arrived() == Map::<usize, BatchSummary>::empty(),
            final(self).ordered(),
    {
        self.generation = self.generation.wrapping_add(1);
        self.matching_lines = Vec::new();
        self.hit_count = 0;
        self.bytes_scanned = 0;
        self.lines_scanned = 0;
        self.file_size = file_size;
        self.complete = complete;
        self.error = None;
        self.frequencies = GroupFrequencies::new();
        self.map_buckets = Vec::new();
        self.next_chunk = 0;
        self.pending = std::collections::BTreeMap::new();
        self.arrived = Ghost(Map::empty());
        assert(self@.pending =~= Map::<usize, BatchSummary>::empty());
    }

    /// Applies the waiting batches in chunk order while the next chunk's
    /// batch is there.
    fn apply_pending(&mut self)
        requires
            old(self).wf(),
        ensures
            final(self).wf(),
            final(self)@ == settle(old(self)@),
            final(self).arrived() == old(self).arrived(),
            final(self)@.generation == old(self)@.generation,
    {
        proof {
            self.lemma_pending_finite();
        }
        while self.next_chunk < usize::MAX
            invariant
                self.wf(),
                self@.pending.dom().finite(),
                old(self)@.pending.dom().finite(),
                settle(self@) == settle(old(self)@),
                self.arrived() == old(self).arrived(),
                self.generation == old(self).generation,
            ensures
                self.wf(),
                self@ == settle(old(self)@),
                self.arrived() == old(self).arrived(),
                self.generation == old(self).generation,
            decreases self@.pending.dom().len(),
        {
            let key = self.next_chunk;
            let ghost v = self@;
            let ghost pb = self.pending@;
            match self.pending.remove(&key) {
                Some(batch) => {
                    assert(v.pending.contains_key(key));
                    assert(v.pending[key] == summary_of(batch));
                    apply_matching_lines(&mut self.matching_lines, &batch.matching_lines);
                    apply_map_buckets(&mut self.map_buckets, &batch.map_buckets);
                    self.hit_count = self.hit_count.wrapping_add(batch.hit_count);
                    apply_frequencies(&mut self.frequencies, &batch.frequencies);
                    if batch.bytes_scanned > self.bytes_scanned {
                        self.bytes_scanned = batch.bytes_scanned;
                    }
                    if batch.lines_scanned > self.lines_scanned {
                        self.lines_scanned = batch.lines_scanned;
                    }
                    self.next_chunk = key + 1;
                    proof {
                        self.lemma_pending_finite();
                        assert(self@.pending =~= v.pending.remove(key));
                        assert(settle(v) == settle(self@));
                    }
                },
                None => {
                    assert(!v.pending.contains_key(key));
                    assert(self.pending@ =~= pb);
                    assert(self@ == v);
                    break;
                },
            }
        }
    }

    /// Takes in one message of a scan, as `after_message` says. A batch of
    /// the current scan whose chunk has not arrived before keeps the index
    /// in chunk order.
    pub fn receive(&mut self, message: ScanMessage)
        requires
            old(self).wf(),
        ensures
            final(self).wf(),
            final(self)@ == after_message(old(self)@, message),
            final(self)@.generation == old(self)@.generation,
            match message {
                ScanMessage::Batch {
                    generation,
                    chunk_index,
                    matching_lines,
                    map_buckets,
                    hit_count,
                    frequencies,
                    bytes_scanned,
                    lines_scanned,
                } => if generation == old(self)@.generation {
                    &&& final(self).arrived() == old(self).arrived().insert(
                        chunk_index,
                        BatchSummary {
                            lines: matching_lines@,
                            buckets: map_buckets@,
                            hits: hit_count,
                            deltas: deltas_view(frequencies@),
                            bytes: bytes_scanned,
                            lines_scanned,
                        },
                    )
                    &&& (old(self).ordered() && !old(self).arrived().contains_key(chunk_index)) ==> final(self).ordered()
                } else {
                    &&& final(self).arrived() == old(self).arrived()
                    &&& old(self).ordered() ==> final(self).ordered()
                },
                _ => {
                    &&& final(self).arrived() == old(self).arrived()
                    &&& old(self).ordered() ==> final(self).ordered()
                },
            },
    {
        let ghost v = self@;
        proof {
            self.lemma_pending_finite();
        }
        match message {
            ScanMessage::Batch {
                generation,
                chunk_index,
                matching_lines,
                map_buckets,
                hit_count,
                frequencies,
                bytes_scanned,
                lines_scanned,
            } => {
                if generation == self.generation {
                    let batch = PendingBatch {
                        matching_lines,
                        map_buckets,
                        hit_count,
                        frequencies,
                        bytes_scanned,
                        lines_scanned,
                    };
                    let ghost x = summary_of(batch);
                    self.pending.insert(chunk_index, batch);
                    proof {
                        if old(self).ordered() && !old(self).arrived().contains_key(chunk_index) {
                            lemma_fresh_batch(v, old(self).arrived(), chunk_index, x);
                        }
                    }
                    self.arrived = Ghost(self.arrived@.insert(chunk_index, x));
                    assert(self@.pending =~= v.pending.insert(chunk_index, x));
                    self.apply_pending();
                }
            },
            ScanMessage::Done { generation, bytes_scanned, lines_scanned } => {
                if generation == self.generation {
                    self.bytes_scanned = bytes_scanned;
                    self.lines_scanned = lines_scanned;
                    self.complete = true;
                }
            },
            ScanMessage::Error { generation, message } => {
                if generation == self.generation {
                    self.error = Some(message);
                    self.complete = true;
                }
            },
        }
    }

    /// Takes in the messages that came, in order. The batches of the
    /// current scan among them arrive under their chunk indices; when each
    /// comes for a chunk that had not arrived, an index in chunk order stays
    /// in chunk order (`law_chunk_order`).
    pub fn drain(&mut self, messages: Vec<ScanMessage>)
        requires
            old(self).wf(),
        ensures
            final(self).wf(),
            final(self)@ == after_messages(old(self)@, messages@),
            final(self)@.generation == old(self)@.generation,
            final(self).arrived() == arrivals(old(self).arrived(), old(self)@.generation, messages@),
            (old(self).ordered() && fresh_chunks(old(self).arrived(), old(self)@.generation, messages@))
                ==> final(self).ordered(),
    {
        let mut messages = messages;
        let total = messages.len();
        let ghost all = messages@;
        let mut taken: usize = 0;
        let ghost start = self@;
        let ghost arrived0 = self.arrived();
        let ghost ordered0 = self.ordered();
        let ghost g = self@.generation;
        assert(all.take(0) =~= Seq::<ScanMessage>::empty());
        while messages.len() > 0
            invariant
                self.wf(),
                taken + messages@.len() == all.len(),
                all.len() == total,
                messages@ == all.skip(taken as int),
                self@ == after_messages(start, all.take(taken as int)),
                self@.generation == g,
                self.arrived() == arrivals(arrived0, g, all.take(taken as int)),
                (ordered0 && fresh_chunks(arrived0, g, all.take(taken as int))) ==> self.ordered(),
            decreases messages@.len(),
        {
            let message = messages.remove(0);
            assert(message == all[taken as int]);
            let ghost before = all.take(taken as int);
            let ghost after = all.take(taken + 1);
            assert(after.drop_last() =~= before);
            assert(after.last() == message);
            self.receive(message);
            taken = taken + 1;
            assert(messages@ =~= all.skip(taken as int));
        }
        assert(all.take(taken as int) =~= all);
    }

    /// Whether the matching lines are in nondecreasing order, as the lines
    /// of a scan applied in chunk order are.
    pub open spec fn lines_ascending(&self) -> bool {
        nondecreasing(self@.found.lines)
    }

    /// The matching line that navigation goes to after `current_line`: the
    /// first one after it, or the first one of all when none is after it
    /// (navigation wraps around); `None` when no line matches. The matching
    /// lines are searched by bisection, which finds that line when they are
    /// in order; otherwise the result is one of the matching lines.
    pub fn next_line_after(&self, current_line: usize) -> (r: Option<usize>)
        ensures
            r is None <==> self@.found.lines.len() == 0,
            match r {
                Some(line) => self@.found.lines.contains(line as LineNumber) && line <= u32::MAX,
                None => true,
            },
            r == nav_next(self@.found.lines, current_line),
            self.lines_ascending() ==> r == next_match_line(self@.found.lines, current_line),
    {
        let lines = &self.matching_lines;
        let ghost s = lines@;
        let mut lo: usize = 0;
        let mut hi: usize = lines.len();
        while lo < hi
            invariant
                s == lines@,
                lo <= hi <= s.len(),
                bisect(s, current_line, false, lo as int, hi as int) == bisect(s, current_line, false, 0, s.len() as int),
                nondecreasing(s) ==> forall|k: int| 0 <= k < lo ==> s[k] <= current_line,
                nondecreasing(s) ==> forall|k: int| hi <= k < s.len() ==> s[k] > current_line,
            decreases hi - lo,
        {
            let mid = lo + (hi - lo) / 2;
            if line_to_usize(lines[mid]) <= current_line {
                lo = mid + 1;
            } else {
                hi = mid;
            }
        }
        proof {
            if nondecreasing(s) {
                lemma_first_above(s, current_line, lo as int);
            }
        }
        if lo < lines.len() {
            Some(line_to_usize(lines[lo]))
        } else if lines.len() > 0 {
            Some(line_to_usize(lines[0]))
        } else {
            None
        }
    }

    /// The matching line that navigation goes to before `current_line`: the
    /// last one before it, or the last one of all when none is before it
    /// (navigation wraps around); `None` when no line matches. Searched by
    /// bisection as `next_line_after` is.
    pub fn prev_line_before(&self, current_line: usize) -> (r: Option<usize>)
        ensures
            r is None <==> self@.found.lines.len() == 0,
            match r {
                Some(line) => self@.found.lines.contains(line as LineNumber) && line <= u32::MAX,
                None => true,
            },
            r == nav_prev(self@.found.lines, current_line),
            self.lines_ascending() ==> r == prev_match_line(self@.found.lines, current_line),
    {
        let lines = &self.matching_lines;
        let ghost s = lines@;
        let mut lo: usize = 0;
        let mut hi: usize = lines.len();
        while lo < hi
            invariant
                s == lines@,
                lo <= hi <= s.len(),
                bisect(s, current_line, true, lo as int, hi as int) == bisect(s, current_line, true, 0, s.len() as int),
                nondecreasing(s) ==> forall|k: int| 0 <= k < lo ==> s[k] < current_line,
                nondecreasing(s) ==> forall|k: int| hi <= k < s.len() ==> s[k] >= current_line,
            decreases hi - lo,
        {
            let mid = lo + (hi - lo) / 2;
            if line_to_usize(lines[mid]) < current_line {
                lo = mid + 1;
            } else {
                hi = mid;
            }
        }
        proof {
            if nondecreasing(s) {
                lemma_last_below(s, current_line, lo as int);
            }
        }
        if lo > 0 {
            Some(line_to_usize(lines[lo - 1]))
        } else if lines.len() > 0 {
            Some(line_to_usize(lines[lines.len() - 1]))
        } else {
            None
        }
    }

    /// Up to `len` matching lines, starting with the one at position
    /// `start`.
    pub fn matching_lines_window(&self, start: usize, len: usize) -> (r: Vec<usize>)
        ensures
            r@ == line_window(self@.found.lines, start as int, len as int),
    {
        let lines = &self.matching_lines;
        let n = lines.len();
        let from = if start < n { start } else { n };
        let to = if len < n - from { from + len } else { n };
        let mut out: Vec<usize> = Vec::new();
        let mut i: usize = from;
        while i < to
            invariant
                from <= i <= to <= n,
                n == lines@.len(),
                out@ == lines@.subrange(from as int, i as int).map_values(|l: LineNumber| l as usize),
            decreases to - i,
        {
            let ghost before = out@;
            out.push(line_to_usize(lines[i]));
            assert(lines@.subrange(from as int, i + 1) =~= lines@.subrange(from as int, i as int).push(lines@[i as int]));
            assert(out@ =~= lines@.subrange(from as int, i + 1).map_values(|l: LineNumber| l as usize));
            i = i + 1;
        }
        out
    }

    /// The number of matching lines.
    pub fn matching_line_count(&self) -> (r: usize)
        ensures
            r == self@.found.lines.len(),
    {
        self.matching_lines.len()
    }

    /// The match map scaled to `rows` rows: a row is marked when a bucket
    /// that was hit falls into it.
    pub fn match_map_rows(&self, rows: usize) -> (r: Vec<bool>)
        ensures
            r@.len() == rows,
            forall|i: int| 0 <= i < rows ==> (#[trigger] r@[i] <==> exists|k: int|
                0 <= k < self@.found.buckets.len() && row_of(#[trigger] self@.found.buckets[k], rows) == i),
    {
        let mut marks: Vec<bool> = Vec::new();
        while marks.len() < rows
            invariant
                marks@.len() <= rows,
                forall|i: int| 0 <= i < marks@.len() ==> !marks@[i],
            decreases rows - marks@.len(),
        {
            marks.push(false);
        }
        if rows == 0 {
            return marks;
        }
        let buckets = &self.map_buckets;
        let ghost bs = buckets@;
        let mut k: usize = 0;
        while k < buckets.len()
            invariant
                bs == buckets@,
                bs == self@.found.buckets,
                rows > 0,
                k <= bs.len(),
                marks@.len() == rows,
                forall|i: int| 0 <= i < rows ==> (#[trigger] marks@[i] <==> exists|j: int|
                    0 <= j < k && row_of(#[trigger] bs[j], rows) == i),
            decreases bs.len() - k,
        {
            let b = buckets[k];
            let scaled = match (b as usize).checked_mul(rows) {
                Some(v) => v,
                None => usize::MAX,
            };
            let mut row = scaled / 8192;
            if row > rows - 1 {
                row = rows - 1;
            }
            assert(row == row_of(b, rows));
            let ghost before = marks@;
            marks.set(row, true);
            assert forall|i: int| 0 <= i < rows implies (#[trigger] marks@[i] <==> exists|j: int|
                0 <= j < k + 1 && row_of(#[trigger] bs[j], rows) == i) by {
                if i == row {
                    assert(row_of(bs[k as int], rows) == i);
                } else {
                    assert(marks@[i] == before[i]);
                    if exists|j: int| 0 <= j < k + 1 && row_of(#[trigger] bs[j], rows) == i {
                        let j = choose|j: int| 0 <= j < k + 1 && row_of(#[trigger] bs[j], rows) == i;
                        assert(j < k);
                    }
                }
            }
            k = k + 1;
        }
        marks
    }

    /// The group with the largest total (the last such group in name order)
    /// with at most `limit` of its values, the largest counts first and
    /// equal counts in value order; `None` when no group has counts.
    pub fn top_frequency_bars(&self, limit: usize) -> (r: Option<(String, Vec<(String, u64)>)>)
        requires
            self.wf(),
        ensures
            match r {
                None => self@.found.groups.len() == 0,
                Some((name, bars)) => {
                    let l = self@.found.groups;
                    let b = busiest_group(l, l.len() as int);
                    &&& l.len() > 0
                    &&& name@ == l[b].0
                    &&& exists|all: Seq<(Seq<char>, u64)>|
                        ranked(all, l[b].1) && bars_view(bars@) == first_bars(all, limit as nat)
                },
            },
    {
        self.frequencies.top_bars(limit)
    }
}

/// Where bisection over `s[lo..hi]` ends when it looks for the first line
/// after `cur` (or, when `strict`, the first line not before `cur`): the
/// middle line decides which half is kept.
pub open spec fn bisect(s: Seq<LineNumber>, cur: usize, strict: bool, lo: int, hi: int) -> int
    decreases hi - lo,
{
    if lo >= hi {
        lo
    } else {
        let mid = lo + (hi - lo) / 2;
        if (if strict { s[mid] < cur } else { s[mid] <= cur }) {
            bisect(s, cur, strict, mid + 1, hi)
        } else {
            bisect(s, cur, strict, lo, mid)
        }
    }
}

/// The line that forward navigation from `cur` finds by bisection among
/// `s`: the line where bisection ends, or the first line when it ends past
/// the last.
pub open spec fn nav_next(s: Seq<LineNumber>, cur: usize) -> Option<usize> {
    let p = bisect(s, cur, false, 0, s.len() as int);
    if p < s.len() {
        Some(s[p] as usize)
    } else if s.len() > 0 {
        Some(s[0] as usize)
    } else {
        None
    }
}

/// The line that backward navigation from `cur` finds by bisection among
/// `s`: the line before the one where bisection ends, or the last line when
/// it ends at the first.
pub open spec fn nav_prev(s: Seq<LineNumber>, cur: usize) -> Option<usize> {
    let p = bisect(s, cur, true, 0, s.len() as int);
    if p > 0 {
        Some(s[p - 1] as usize)
    } else if s.len() > 0 {
        Some(s.last() as usize)
    } else {
        None
    }
}

/// Line numbers in nondecreasing order.
pub open spec fn nondecreasing(s: Seq<LineNumber>) -> bool {
    forall|i: int, j: int| 0 <= i <= j < s.len() ==> s[i] <= s[j]
}

/// The first of `s`, in order, that comes after line `cur`.
pub open spec fn first_above(s: Seq<LineNumber>, cur: usize) -> Option<LineNumber>
    decreases s.len(),
{
    if s.len() == 0 {
        None
    } else if s[0] > cur {
        Some(s[0])
    } else {
        first_above(s.drop_first(), cur)
    }
}

/// The last of `s`, in order, that comes before line `cur`.
pub open spec fn last_below(s: Seq<LineNumber>, cur: usize) -> Option<LineNumber>
    decreases s.len(),
{
    if s.len() == 0 {
        None
    } else if s.last() < cur {
        Some(s.last())
    } else {
        last_below(s.drop_last(), cur)
    }
}

/// Where navigation goes forward from line `cur` among matching lines `s`.
pub open spec fn next_match_line(s: Seq<LineNumber>, cur: usize) -> Option<usize> {
    match first_above(s, cur) {
        Some(x) => Some(x as usize),
        None => if s.len() > 0 {
            Some(s[0] as usize)
        } else {
            None
        },
    }
}

/// Where navigation goes back from line `cur` among matching lines `s`.
pub open spec fn prev_match_line(s: Seq<LineNumber>, cur: usize) -> Option<usize> {
    match last_below(s, cur) {
        Some(x) => Some(x as usize),
        None => if s.len() > 0 {
            Some(s.last() as usize)
        } else {
            None
        },
    }
}

/// In ordered lines, the first one after `cur` is at the end of the run of
/// lines not after it.
proof fn lemma_first_above(s: Seq<LineNumber>, cur: usize, lo: int)
    requires
        nondecreasing(s),
        0 <= lo <= s.len(),
        forall|k: int| 0 <= k < lo ==> s[k] <= cur,
        forall|k: int| lo <= k < s.len() ==> s[k] > cur,
    ensures
        first_above(s, cur) == (if lo < s.len() {
            Some(s[lo])
        } else {
            None::<LineNumber>
        }),
    decreases s.len(),
{
    if s.len() > 0 && lo > 0 {
        let t = s.drop_first();
        assert forall|i: int, j: int| 0 <= i <= j < t.len() implies t[i] <= t[j] by {
            assert(t[i] == s[i + 1] && t[j] == s[j + 1]);
        }
        lemma_first_above(t, cur, lo - 1);
    }
}

/// In ordered lines, the last one before `cur` ends the run of lines
/// before it.
proof fn lemma_last_below(s: Seq<LineNumber>, cur: usize, lo: int)
    requires
        nondecreasing(s),
        0 <= lo <= s.len(),
        forall|k: int| 0 <= k < lo ==> s[k] < cur,
        forall|k: int| lo <= k < s.len() ==> s[k] >= cur,
    ensures
        last_below(s, cur) == (if lo > 0 {
            Some(s[lo - 1])
        } else {
            None::<LineNumber>
        }),
    decreases s.len(),
{
    if s.len() > 0 && lo < s.len() {
        let t = s.drop_last();
        lemma_last_below(t, cur, lo);
    }
}

/// Up to `len` of `s` from position `start`, as index-sized numbers.
pub open spec fn line_window(s: Seq<LineNumber>, start: int, len: int) -> Seq<usize> {
    let from = if start < s.len() { start } else { s.len() as int };
    let to = if len < s.len() - from { from + len } else { s.len() as int };
    s.subrange(from, to).map_values(|l: LineNumber| l as usize)
}

/// The row of `rows` that bucket `b` of the match map falls into.
pub open spec fn row_of(b: u16, rows: usize) -> int {
    let scaled: int = if b * rows > usize::MAX { usize::MAX as int } else { b * rows };
    let row: int = scaled / (MATCH_MAP_BUCKETS as int);
    if row > rows - 1 { rows - 1 } else { row }
}


/// The scan a message belongs to.
pub open spec fn message_generation(m: ScanMessage) -> u64 {
    match m {
        ScanMessage::Batch { generation, .. } => generation,
        ScanMessage::Done { generation, .. } => generation,
        ScanMessage::Error { generation, .. } => generation,
    }
}

/// A message of any scan but the current one changes nothing.
pub proof fn law_stale_messages_ignored(v: IndexState, m: ScanMessage)
    requires
        message_generation(m) != v.generation,
    ensures
        after_message(v, m) == v,
{
}

/// The generation of the scan after `k` restarts (`start` or `clear`, each
/// moving the generation one on, wrapping at 2^64) from generation `g`.
pub open spec fn generation_after(g: u64, k: nat) -> u64
    decreases k,
{
    if k == 0 {
        g
    } else {
        vstd::wrapping::u64_specs::wrapping_add(generation_after(g, (k - 1) as nat), 1)
    }
}

/// Fewer than 2^64 restarts wrap the generation at most once.
proof fn lemma_generation_after(g: u64, k: nat)
    requires
        k <= u64::MAX,
    ensures
        generation_after(g, k) == (if g + k <= u64::MAX {
            g + k
        } else {
            g + k - u64::MAX - 1
        }),
    decreases k,
{
    if k > 0 {
        lemma_generation_after(g, (k - 1) as nat);
    }
}

/// Scan law: a scan's generation is new for fewer than 2^64 restarts, so
/// every message of a scan started before the last restart, however many
/// of them `drain` takes in afterwards, changes nothing.
pub proof fn law_earlier_scans_ignored(v: IndexState, g: u64, k: nat, ms: Seq<ScanMessage>)
    requires
        0 < k <= u64::MAX,
        v.generation == generation_after(g, k),
        forall|i: int| 0 <= i < ms.len() ==> message_generation(#[trigger] ms[i]) == g,
    ensures
        v.generation != g,
        after_messages(v, ms) == v,
    decreases ms.len(),
{
    lemma_generation_after(g, k);
    if ms.len() > 0 {
        law_earlier_scans_ignored(v, g, k, ms.drop_last());
        assert(message_generation(ms[ms.len() - 1]) == g);
        law_stale_messages_ignored(v, ms.last());
    }
}

/// Navigation wraps around: forward from the last matching line goes to
/// the first, back from the first goes to the last.
pub proof fn law_navigation_wraps(s: Seq<LineNumber>)
    requires
        nondecreasing(s),
        s.len() > 0,
    ensures
        next_match_line(s, s.last() as usize) == Some(s[0] as usize),
        prev_match_line(s, s[0] as usize) == Some(s.last() as usize),
{
    lemma_first_above(s, s.last() as usize, s.len() as int);
    lemma_last_below(s, s[0] as usize, 0);
}

/// In ordered lines, navigation forward from a line goes to a later
/// matching line when there is one, and back to an earlier one when there
/// is one.
pub proof fn law_navigation_moves(s: Seq<LineNumber>, cur: usize)
    requires
        nondecreasing(s),
    ensures
        (exists|k: int| 0 <= k < s.len() && s[k] > cur) ==> (next_match_line(s, cur) matches Some(x) && x > cur
            && forall|k: int| 0 <= k < s.len() && s[k] > cur ==> x <= s[k]),
        (exists|k: int| 0 <= k < s.len() && s[k] < cur) ==> (prev_match_line(s, cur) matches Some(x) && x < cur
            && forall|k: int| 0 <= k < s.len() && s[k] < cur ==> x >= s[k]),
{
    if exists|k: int| 0 <= k < s.len() && s[k] > cur {
        lemma_first_above_least(s, cur);
    }
    if exists|k: int| 0 <= k < s.len() && s[k] < cur {
        lemma_last_below_greatest(s, cur);
    }
}

/// In ordered lines with one after `cur`, the first such is the least.
proof fn lemma_first_above_least(s: Seq<LineNumber>, cur: usize)
    requires
        nondecreasing(s),
        exists|k: int| 0 <= k < s.len() && s[k] > cur,
    ensures
        first_above(s, cur) matches Some(x) && x > cur && forall|k: int| 0 <= k < s.len() && s[k] > cur ==> x <= s[k],
    decreases s.len(),
{
    if s[0] <= cur {
        let t = s.drop_first();
        assert forall|i: int, j: int| 0 <= i <= j < t.len() implies t[i] <= t[j] by {
            assert(t[i] == s[i + 1] && t[j] == s[j + 1]);
        }
        let k0 = choose|k: int| 0 <= k < s.len() && s[k] > cur;
        assert(t[k0 - 1] == s[k0]);
        lemma_first_above_least(t, cur);
        assert forall|k: int| 0 <= k < s.len() && s[k] > cur implies first_above(s, cur)->0 <= s[k] by {
            assert(k >= 1);
            assert(t[k - 1] == s[k]);
        }
    }
}

/// In ordered lines with one before `cur`, the last such is the greatest.
proof fn lemma_last_below_greatest(s: Seq<LineNumber>, cur: usize)
    requires
        nondecreasing(s),
        exists|k: int| 0 <= k < s.len() && s[k] < cur,
    ensures
        last_below(s, cur) matches Some(x) && x < cur && forall|k: int| 0 <= k < s.len() && s[k] < cur ==> x >= s[k],
    decreases s.len(),
{
    if s.last() >= cur {
        let t = s.drop_last();
        let k0 = choose|k: int| 0 <= k < s.len() && s[k] < cur;
        assert(t[k0] == s[k0]);
        lemma_last_below_greatest(t, cur);
        assert forall|k: int| 0 <= k < s.len() && s[k] < cur implies last_below(s, cur)->0 >= s[k] by {
            assert(k < s.len() - 1);
            assert(t[k] == s[k]);
        }
    }
}


/// The plain view of the lines of a chunk being built.
pub open spec fn chunk_view(lines: Seq<ScanLine>) -> Seq<(usize, u64, Seq<u8>)> {
    lines_view(lines)
}

/// Builds the chunks of a scan from the lines of a file read in order:
/// lines are numbered from one and placed at the byte where the line before
/// ended, and every `CHUNK_LINES` lines make a chunk of work.
pub struct ChunkBuilder {
    chunk: Vec<ScanLine>,
    line_number: usize,
    byte_offset: u64,
    chunk_index: usize,
}

/// Lines `ls` follow one another: numbered consecutively up to `last`, each
/// starting where the one before ended, the last ending at `end`.
pub open spec fn consecutive(ls: Seq<(usize, u64, Seq<u8>)>, last: usize, end: u64) -> bool {
    &&& ls.len() <= last
    &&& forall|i: int| 0 <= i < ls.len() ==> (#[trigger] ls[i]).0 == last - ls.len() + 1 + i
    &&& forall|i: int| 0 <= i < ls.len() - 1 ==> (#[trigger] ls[i]).1 + ls[i].2.len() == ls[i + 1].1
    &&& ls.len() > 0 ==> ls.last().1 + ls.last().2.len() == end
}

impl ChunkBuilder {
    /// The lines read since the last chunk was handed out.
    pub closed spec fn pending_lines(&self) -> Seq<(usize, u64, Seq<u8>)> {
        chunk_view(self.chunk@)
    }

    /// The number of lines read.
    pub closed spec fn lines_read(&self) -> usize {
        self.line_number
    }

    /// The number of bytes read.
    pub closed spec fn bytes_read(&self) -> u64 {
        self.byte_offset
    }

    /// The index the next chunk gets.
    pub closed spec fn next_index(&self) -> usize {
        self.chunk_index
    }

    /// The lines waiting are fewer than a chunk and follow one another up to
    /// the last line read.
    pub closed spec fn wf(&self) -> bool {
        &&& self.chunk@.len() < CHUNK_LINES
        &&& consecutive(chunk_view(self.chunk@), self.line_number, self.byte_offset)
    }

    /// Nothing read yet.
    pub fn new() -> (r: Self)
        ensures
            r.wf(),
            r.pending_lines().len() == 0,
            r.lines_read() == 0,
            r.bytes_read() == 0,
            r.next_index() == 0,
    {
        let r = ChunkBuilder { chunk: Vec::new(), line_number: 0, byte_offset: 0, chunk_index: 0 };
        assert(chunk_view(r.chunk@) =~= Seq::<(usize, u64, Seq<u8>)>::empty());
        r
    }

    /// Adds the next line of the file (`text`, its line ending included);
    /// when that fills a chunk, the chunk is handed out, with the progress
    /// reached after it.
    pub fn push_line(&mut self, text: Vec<u8>) -> (r: Option<WorkChunk>)
        requires
            old(self).wf(),
            text@.len() > 0,
            old(self).lines_read() < usize::MAX,
            old(self).bytes_read() + text@.len() <= u64::MAX,
            old(self).next_index() < usize::MAX,
        ensures
            final(self).wf(),
            final(self).lines_read() == old(self).lines_read() + 1,
            final(self).bytes_read() == old(self).bytes_read() + text@.len(),
            ({
                let all = old(self).pending_lines().push(
                    ((old(self).lines_read() + 1) as usize, old(self).bytes_read(), text@),
                );
                match r {
                    Some(work) => {
                        &&& all.len() == CHUNK_LINES
                        &&& lines_view(work.lines@) == all
                        &&& consecutive(all, work.lines_scanned, work.bytes_scanned)
                        &&& work.index == old(self).next_index()
                        &&& work.bytes_scanned == final(self).bytes_read()
                        &&& work.lines_scanned == final(self).lines_read()
                        &&& final(self).pending_lines().len() == 0
                        &&& final(self).next_index() == old(self).next_index() + 1
                    },
                    None => {
                        &&& all.len() < CHUNK_LINES
                        &&& final(self).pending_lines() == all
                        &&& final(self).next_index() == old(self).next_index()
                    },
                }
            }),
    {
        let ghost before = chunk_view(self.chunk@);
        let read = text.len() as u64;
        self.line_number = self.line_number + 1;
        let line = ScanLine { line: self.line_number, byte_offset: self.byte_offset, text };
        self.chunk.push(line);
        self.byte_offset = self.byte_offset + read;
        assert(chunk_view(self.chunk@) =~= before.push(line_view(line)));
        if self.chunk.len() >= CHUNK_LINES {
            let mut lines: Vec<ScanLine> = Vec::new();
            std::mem::swap(&mut lines, &mut self.chunk);
            let work = WorkChunk {
                index: self.chunk_index,
                lines,
                bytes_scanned: self.byte_offset,
                lines_scanned: self.line_number,
            };
            self.chunk_index = self.chunk_index + 1;
            assert(chunk_view(self.chunk@) =~= Seq::<(usize, u64, Seq<u8>)>::empty());
            Some(work)
        } else {
            None
        }
    }

    /// Ends the scan: the lines still waiting (as a last chunk, if any) and
    /// the totals of bytes and lines read.
    pub fn finish(self) -> (r: (Option<WorkChunk>, u64, usize))
        requires
            self.wf(),
        ensures
            r.1 == self.bytes_read(),
            r.2 == self.lines_read(),
            match r.0 {
                Some(work) => {
                    &&& self.pending_lines().len() > 0
                    &&& lines_view(work.lines@) == self.pending_lines()
                    &&& consecutive(lines_view(work.lines@), work.lines_scanned, work.bytes_scanned)
                    &&& work.index == self.next_index()
                    &&& work.bytes_scanned == self.bytes_read()
                    &&& work.lines_scanned == self.lines_read()
                },
                None => self.pending_lines().len() == 0,
            },
    {
        let ChunkBuilder { chunk, line_number, byte_offset, chunk_index } = self;
        if chunk.len() > 0 {
            (Some(WorkChunk { index: chunk_index, lines: chunk, bytes_scanned: byte_offset, lines_scanned: line_number }), byte_offset, line_number)
        } else {
            (None, byte_offset, line_number)
        }
    }
}

/// The row of a `rows`-row match map that byte `offset` of a file of
/// `file_size` bytes falls into (a file size of zero counts as one byte).
pub open spec fn offset_row(offset: u64, rows: usize, file_size: u64) -> int {
    let size: int = if file_size == 0 { 1 } else { file_size as int };
    let scaled: int = if offset * rows > u64::MAX { u64::MAX as int } else { offset * rows };
    let row: int = scaled / size;
    if row > rows - 1 { rows - 1 } else { row }
}

/// The row of the match map that shows byte `offset` of the file.
pub fn map_row_of_offset(offset: u64, rows: usize, file_size: u64) -> (r: usize)
    requires
        rows > 0,
    ensures
        r == offset_row(offset, rows, file_size),
{
    let size: u64 = if file_size == 0 { 1 } else { file_size };
    let scaled = match offset.checked_mul(rows as u64) {
        Some(v) => v,
        None => u64::MAX,
    };
    let row = scaled / size;
    let last = (rows - 1) as u64;
    if row > last {
        rows - 1
    } else {
        row as usize
    }
}

} // verus!
