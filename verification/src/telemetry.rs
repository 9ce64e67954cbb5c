//! Reading telemetry out of a decoded frame.
//!
//! The brain prints telemetry as text: `TELE_DEBUG:` followed by numbers separated by commas
//! and then `TELE_END`, all on one line. A frame's bytes stand for characters one for one, so
//! the markers are matched byte for byte.
use vstd::prelude::*;
use crate::cobs::{first_index, lemma_first_index};
use crate::decoder::Decoder;

verus! {

/// The bytes of `TELE_DEBUG:`, which opens the telemetry of a frame.
pub open spec fn start_marker() -> Seq<u8> {
    seq![84u8, 69, 76, 69, 95, 68, 69, 66, 85, 71, 58]
}

/// The bytes of `TELE_END`, which closes it.
pub open spec fn end_marker() -> Seq<u8> {
    seq![84u8, 69, 76, 69, 95, 69, 78, 68]
}

/// The line feed, which telemetry never spans.
pub open spec fn line_feed() -> u8 {
    10
}

/// The comma, which separates the fields of telemetry.
pub open spec fn comma() -> u8 {
    44
}

/// Whether `m` occurs in `s` at index `i`.
pub open spec fn marker_at(s: Seq<u8>, i: int, m: Seq<u8>) -> bool {
    0 <= i && i + m.len() <= s.len() && s.subrange(i, i + m.len()) == m
}

/// Whether the telemetry opened at `i` is closed by the end marker at `j`: the first end marker
/// after the start marker, with no line feed in between.
pub open spec fn closes_telemetry(s: Seq<u8>, i: int, j: int) -> bool {
    &&& i + start_marker().len() <= j
    &&& marker_at(s, j, end_marker())
    &&& forall|k: int|
        i + start_marker().len() <= k < j ==> s[k] != line_feed() && !marker_at(
            s,
            k,
            end_marker(),
        )
}

/// Whether telemetry starts at `i`: a start marker that an end marker closes.
pub open spec fn telemetry_start(s: Seq<u8>, i: int) -> bool {
    marker_at(s, i, start_marker()) && exists|j: int| closes_telemetry(s, i, j)
}

/// Whether `i` is where the first telemetry of `s` starts.
pub open spec fn first_telemetry(s: Seq<u8>, i: int) -> bool {
    telemetry_start(s, i) && forall|k: int| 0 <= k < i ==> !telemetry_start(s, k)
}

/// The fields of `s`: the runs of bytes between commas, and before the first and after the
/// last one. There is one more field than there are commas.
pub open spec fn comma_fields(s: Seq<u8>) -> Seq<Seq<u8>>
    decreases s.len(),
{
    let k = first_index(s, comma());
    if k < s.len() {
        proof {
            lemma_first_index(s, comma());
        }
        seq![s.subrange(0, k)] + comma_fields(s.subrange(k + 1, s.len() as int))
    } else {
        seq![s]
    }
}

/// The bytes of `fields` one after another, with a comma between neighbours.
pub open spec fn join_with_commas(fields: Seq<Seq<u8>>) -> Seq<u8>
    decreases fields.len(),
{
    if fields.len() == 0 {
        Seq::empty()
    } else if fields.len() == 1 {
        fields[0]
    } else {
        fields[0] + seq![comma()] + join_with_commas(fields.drop_first())
    }
}

/// Splitting at the commas keeps every byte: the fields hold no comma, there is at least one,
/// and joining them with a comma between neighbours gives back `s`.
pub proof fn lemma_fields_rejoin(s: Seq<u8>)
    ensures
        comma_fields(s).len() >= 1,
        join_with_commas(comma_fields(s)) == s,
        forall|f: int|
            0 <= f < comma_fields(s).len() ==> !comma_fields(s)[f].contains(comma()),
    decreases s.len(),
{
    lemma_first_index(s, comma());
    let k = first_index(s, comma());
    if k < s.len() {
        let rest = s.subrange(k + 1, s.len() as int);
        lemma_fields_rejoin(rest);
        let fields = comma_fields(s);
        assert(fields.drop_first() =~= comma_fields(rest));
        assert(join_with_commas(fields) =~= s.subrange(0, k) + seq![comma()] + rest);
        assert(s =~= s.subrange(0, k) + seq![comma()] + rest);
        assert forall|f: int| 0 <= f < fields.len() implies !fields[f].contains(comma()) by {
            if f == 0 {
                if fields[0].contains(comma()) {
                    let m = choose|m: int| 0 <= m < fields[0].len() && fields[0][m] == comma();
                    assert(s[m] == comma());
                }
            } else {
                assert(fields[f] == comma_fields(rest)[f - 1]);
            }
        }
    } else {
        if s.contains(comma()) {
            let m = choose|m: int| 0 <= m < s.len() && s[m] == comma();
            assert(s[m] != comma());
        }
    }
}

/// The bytes of each field.
pub open spec fn fields_view(fields: Seq<Vec<u8>>) -> Seq<Seq<u8>> {
    fields.map_values(|f: Vec<u8>| f@)
}

fn start_marker_bytes() -> (v: Vec<u8>)
    ensures
        v@ == start_marker(),
{
    let v = vec![84u8, 69, 76, 69, 95, 68, 69, 66, 85, 71, 58];
    assert(v@ =~= start_marker());
    v
}

fn end_marker_bytes() -> (v: Vec<u8>)
    ensures
        v@ == end_marker(),
{
    let v = vec![84u8, 69, 76, 69, 95, 69, 78, 68];
    assert(v@ =~= end_marker());
    v
}

fn marker_matches(data: &Vec<u8>, i: usize, marker: &Vec<u8>) -> (r: bool)
    ensures
        r == marker_at(data@, i as int, marker@),
{
    let dl = data.len();
    if marker.len() > dl || i > dl - marker.len() {
        return false;
    }
    let mut k: usize = 0;
    while k < marker.len()
        invariant
            dl == data@.len(),
            i + marker@.len() <= data@.len(),
            k <= marker@.len(),
            forall|m: int| 0 <= m < k ==> data@[i + m] == marker@[m],
        decreases marker.len() - k,
    {
        assert(i + k < data@.len());
        if data[i + k] != marker[k] {
            assert(data@.subrange(i as int, i + marker@.len())[k as int] != marker@[k as int]);
            return false;
        }
        k += 1;
    }
    assert(data@.subrange(i as int, i + marker@.len()) =~= marker@);
    true
}

/// Where the telemetry that opens at `i` closes, if it does.
fn telemetry_close(data: &Vec<u8>, i: usize, end: &Vec<u8>) -> (r: Option<usize>)
    requires
        marker_at(data@, i as int, start_marker()),
        end@ == end_marker(),
    ensures
        r matches Some(j) ==> closes_telemetry(data@, i as int, j as int),
        r is None ==> forall|j: int| !closes_telemetry(data@, i as int, j),
{
    let n = data.len();
    assert(start_marker().len() == 11);
    let body = i + 11;
    let mut j = body;
    while j < n
        invariant
            n == data@.len(),
            body == i + start_marker().len(),
            body <= j <= n,
            end@ == end_marker(),
            forall|k: int| body <= k < j ==> data@[k] != line_feed() && !marker_at(data@, k, end_marker()),
        decreases n - j,
    {
        if data[j] == 10 {
            assert forall|j2: int| !closes_telemetry(data@, i as int, j2) by {
                if closes_telemetry(data@, i as int, j2) && j2 == j {
                    assert(data@.subrange(j2, j2 + 8)[0] == end_marker()[0]);
                }
            }
            return None;
        }
        if marker_matches(data, j, end) {
            return Some(j);
        }
        j += 1;
    }
    None
}

/// The bytes of the first telemetry in `data`: what lies between the start marker and the
/// end marker that closes it.
pub fn telemetry_payload(data: &Vec<u8>) -> (r: Option<Vec<u8>>)
    ensures
        r is None <==> forall|i: int| !telemetry_start(data@, i),
        r matches Some(p) ==> exists|i: int, j: int|
            first_telemetry(data@, i) && closes_telemetry(data@, i, j) && p@ == data@.subrange(
                i + start_marker().len(),
                j,
            ),
{
    let start = start_marker_bytes();
    let end = end_marker_bytes();
    let n = data.len();
    let mut i: usize = 0;
    while i < n
        invariant
            n == data@.len(),
            i <= n,
            start@ == start_marker(),
            end@ == end_marker(),
            forall|k: int| 0 <= k < i ==> !telemetry_start(data@, k),
        decreases n - i,
    {
        if marker_matches(data, i, &start) {
            match telemetry_close(data, i, &end) {
                Some(j) => {
                    let body = i + 11;
                    let mut payload: Vec<u8> = Vec::new();
                    let mut k = body;
                    while k < j
                        invariant
                            body <= k <= j <= n,
                            n == data@.len(),
                            payload@ == data@.subrange(body as int, k as int),
                        decreases j - k,
                    {
                        payload.push(data[k]);
                        k += 1;
                        assert(payload@ =~= data@.subrange(body as int, k as int));
                    }
                    assert(first_telemetry(data@, i as int));
                    return Some(payload);
                },
                None => {},
            }
        }
        i += 1;
    }
    assert forall|k: int| !telemetry_start(data@, k) by {
        if 0 <= k && k >= n {
            assert(!marker_at(data@, k, start_marker()));
        }
    }
    None
}

proof fn lemma_first_index_after(cur: Seq<u8>, rest: Seq<u8>, b: u8)
    requires
        forall|k: int| 0 <= k < cur.len() ==> cur[k] != b,
    ensures
        first_index(cur + rest, b) == cur.len() + first_index(rest, b),
    decreases cur.len(),
{
    if cur.len() > 0 {
        assert((cur + rest)[0] == cur[0]);
        assert((cur + rest).drop_first() =~= cur.drop_first() + rest);
        lemma_first_index_after(cur.drop_first(), rest, b);
    } else {
        assert(cur + rest =~= rest);
    }
}

/// The fields of `payload`, split at its commas.
pub fn split_fields(payload: &Vec<u8>) -> (r: Vec<Vec<u8>>)
    ensures
        fields_view(r@) == comma_fields(payload@),
        join_with_commas(fields_view(r@)) == payload@,
        forall|f: int| 0 <= f < r@.len() ==> !r@[f]@.contains(comma()),
{
    let n = payload.len();
    let mut fields: Vec<Vec<u8>> = Vec::new();
    let mut current: Vec<u8> = Vec::new();
    let mut i: usize = 0;
    assert(payload@.skip(0) =~= payload@);
    assert(current@ + payload@ =~= payload@);
    assert(fields_view(fields@) + comma_fields(payload@) =~= comma_fields(payload@));
    while i < n
        invariant
            n == payload@.len(),
            i <= n,
            forall|k: int| 0 <= k < current@.len() ==> current@[k] != comma(),
            fields_view(fields@) + comma_fields(current@ + payload@.skip(i as int)) == comma_fields(
                payload@,
            ),
        decreases n - i,
    {
        let b = payload[i];
        let ghost rest = payload@.skip(i as int);
        assert(rest[0] == b);
        assert(rest.drop_first() =~= payload@.skip(i + 1));
        if b == 44 {
            proof {
                lemma_first_index_after(current@, rest, comma());
                let joined = current@ + rest;
                assert(joined.subrange(0, current@.len() as int) =~= current@);
                assert(joined.subrange(current@.len() + 1int, joined.len() as int) =~= rest.drop_first());
                assert(comma_fields(joined) =~= seq![current@] + comma_fields(rest.drop_first()));
            }
            let ghost before = fields@;
            fields.push(current);
            current = Vec::new();
            proof {
                assert(fields_view(fields@) =~= fields_view(before).push(fields@.last()@));
                assert(current@ + payload@.skip(i + 1) =~= payload@.skip(i + 1));
            }
        } else {
            let ghost before = current@;
            current.push(b);
            assert(current@ + payload@.skip(i + 1) =~= before + rest);
        }
        i += 1;
    }
    proof {
        assert(current@ + payload@.skip(n as int) =~= current@);
        lemma_first_index_after(current@, Seq::empty(), comma());
        assert(current@ + Seq::<u8>::empty() =~= current@);
    }
    let ghost before = fields@;
    fields.push(current);
    assert(fields_view(fields@) =~= fields_view(before).push(fields@.last()@));
    proof {
        assert(fields_view(fields@) =~= comma_fields(payload@));
        lemma_fields_rejoin(payload@);
        assert forall|f: int| 0 <= f < fields@.len() implies !fields@[f]@.contains(comma()) by {
            assert(fields@[f]@ == fields_view(fields@)[f]);
        }
    }
    fields
}

impl Decoder {
    /// Reads the telemetry of a decoded frame: the fields of its first telemetry, which the
    /// brain writes as decimal numbers. `None` where the frame holds no telemetry.
    pub fn telemetry_fields(data: &Vec<u8>) -> (r: Option<Vec<Vec<u8>>>)
        ensures
            r is None <==> forall|i: int| !telemetry_start(data@, i),
            r matches Some(fields) ==> exists|i: int, j: int|
                first_telemetry(data@, i) && closes_telemetry(data@, i, j) && fields_view(fields@)
                    == comma_fields(data@.subrange(i + start_marker().len(), j))
                    && join_with_commas(fields_view(fields@)) == data@.subrange(
                    i + start_marker().len(),
                    j,
                ),
    {
        match telemetry_payload(data) {
            None => None,
            Some(payload) => Some(split_fields(&payload)),
        }
    }
}

} // verus!
