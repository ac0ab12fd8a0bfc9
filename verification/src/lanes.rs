use vstd::prelude::*;
use std::collections::HashMap;
use vstd::bytes::{
    spec_u32_from_le_bytes, spec_u32_to_le_bytes, spec_u64_from_le_bytes, spec_u64_to_le_bytes,
};

use crate::scheduler::{lanes_view, Scheduler};

verus! {

broadcast use vstd::std_specs::hash::group_hash_axioms;

/// Why the lane section at the start of a program could not be read.
#[derive(Debug, Clone, Copy, PartialEq, Eq, Structural)]
pub enum PreludeError {
    /// The quantity of inputs of a lane is missing.
    MissingSize,
    /// The index of a lane is missing.
    MissingLane,
    /// Fewer items than announced follow a lane's index.
    MissingItems,
}

/// The little-endian 32-bit integer at `pos`.
pub open spec fn u32_at(s: Seq<u8>, pos: int) -> u32 {
    spec_u32_from_le_bytes(s.subrange(pos, pos + 4))
}

/// The little-endian 64-bit integer at `pos`.
pub open spec fn u64_at(s: Seq<u8>, pos: int) -> u64 {
    spec_u64_from_le_bytes(s.subrange(pos, pos + 8))
}

/// `count` consecutive 64-bit items from `pos` on.
pub open spec fn items_at(s: Seq<u8>, pos: int, count: nat) -> Seq<u64> {
    Seq::new(count, |i: int| u64_at(s, pos + 8 * i))
}

/// Reads the lane section from `pos` on: a sequence of lanes, each a 32-bit
/// quantity of items, a 32-bit lane index and that many 64-bit items, ended
/// by a zero quantity. Gives the lanes, where a later lane with the same
/// index replaces an earlier one, and the position after the ending zero.
pub open spec fn prelude_at(s: Seq<u8>, pos: int) -> Result<
    (Map<u32, Seq<u64>>, int),
    PreludeError,
>
    decreases s.len() - pos,
{
    if pos < 0 || pos + 4 > s.len() {
        Err(PreludeError::MissingSize)
    } else {
        let size = u32_at(s, pos);
        if size == 0 {
            Ok((Map::empty(), pos + 4))
        } else if pos + 8 > s.len() {
            Err(PreludeError::MissingLane)
        } else {
            let lane = u32_at(s, pos + 4);
            let end = pos + 8 + 8 * size;
            if end > s.len() {
                Err(PreludeError::MissingItems)
            } else {
                let items = items_at(s, pos + 8, size as nat);
                match prelude_at(s, end) {
                    Err(e) => Err(e),
                    Ok((m, after)) => Ok(
                        (
                            if m.contains_key(lane) {
                                m
                            } else {
                                m.insert(lane, items)
                            },
                            after,
                        ),
                    ),
                }
            }
        }
    }
}

/// The lanes read so far, `acc`, overlaid with what the rest of the
/// section gives.
pub open spec fn overlay(
    acc: Map<u32, Seq<u64>>,
    rest: Result<(Map<u32, Seq<u64>>, int), PreludeError>,
) -> Result<(Map<u32, Seq<u64>>, int), PreludeError> {
    match rest {
        Err(e) => Err(e),
        Ok((m, after)) => Ok((acc.union_prefer_right(m), after)),
    }
}

/// The bytes of 64-bit items, each little-endian, one after the other.
pub open spec fn encode_items(items: Seq<u64>) -> Seq<u8> {
    items.map_values(|x: u64| spec_u64_to_le_bytes(x)).flatten()
}

/// The bytes of one lane: the quantity of items, the lane index, the items.
pub open spec fn encode_lane(lane: (u32, Seq<u64>)) -> Seq<u8> {
    spec_u32_to_le_bytes(lane.1.len() as u32) + spec_u32_to_le_bytes(lane.0) + encode_items(
        lane.1,
    )
}

/// The lane section for the given lanes, ended by a zero quantity.
pub open spec fn encode_lanes(lanes: Seq<(u32, Seq<u64>)>) -> Seq<u8> {
    lanes.map_values(|l: (u32, Seq<u64>)| encode_lane(l)).flatten() + spec_u32_to_le_bytes(0)
}

/// The lanes as a map, where a later lane with the same index replaces an
/// earlier one.
pub open spec fn lanes_map(lanes: Seq<(u32, Seq<u64>)>) -> Map<u32, Seq<u64>>
    decreases lanes.len(),
{
    if lanes.len() == 0 {
        Map::empty()
    } else {
        let m = lanes_map(lanes.drop_first());
        if m.contains_key(lanes[0].0) {
            m
        } else {
            m.insert(lanes[0].0, lanes[0].1)
        }
    }
}

/// The lanes that a vector of lane indices and items stands for.
pub open spec fn lanes_seq(lanes: Seq<(u32, Vec<u64>)>) -> Seq<(u32, Seq<u64>)> {
    lanes.map_values(|l: (u32, Vec<u64>)| (l.0, l.1@))
}

proof fn lemma_flatten_map_push<A>(s: Seq<A>, x: A, f: spec_fn(A) -> Seq<u8>)
    ensures
        s.push(x).map_values(f).flatten() == s.map_values(f).flatten() + f(x),
{
    assert(s.push(x).map_values(f) =~= s.map_values(f).push(f(x)));
    s.map_values(f).lemma_flatten_push(f(x));
}

proof fn lemma_flatten_map_first<A>(s: Seq<A>, f: spec_fn(A) -> Seq<u8>)
    requires
        s.len() > 0,
    ensures
        s.map_values(f).flatten() == f(s[0]) + s.drop_first().map_values(f).flatten(),
{
    assert(s.map_values(f).drop_first() =~= s.drop_first().map_values(f));
}

/// The bytes of `n` items are `8 * n` long, and item `i` occupies bytes
/// `8 * i` to `8 * i + 8`.
proof fn lemma_encode_items(items: Seq<u64>)
    ensures
        encode_items(items).len() == 8 * items.len(),
        forall|i: int|
            0 <= i < items.len() ==> #[trigger] encode_items(items).subrange(8 * i, 8 * i + 8)
                == spec_u64_to_le_bytes(items[i]),
    decreases items.len(),
{
    vstd::bytes::lemma_auto_spec_u64_to_from_le_bytes();
    if items.len() > 0 {
        let f = |x: u64| spec_u64_to_le_bytes(x);
        lemma_flatten_map_first(items, f);
        let rest = items.drop_first();
        lemma_encode_items(rest);
        let e = encode_items(items);
        assert(e == spec_u64_to_le_bytes(items[0]) + encode_items(rest));
        assert forall|i: int| 0 <= i < items.len() implies #[trigger] e.subrange(8 * i, 8 * i + 8)
            == spec_u64_to_le_bytes(items[i]) by {
            if i == 0 {
                assert(e.subrange(0, 8) =~= spec_u64_to_le_bytes(items[0]));
            } else {
                assert(encode_items(rest).subrange(8 * (i - 1), 8 * (i - 1) + 8)
                    == spec_u64_to_le_bytes(rest[i - 1]));
                assert(e.subrange(8 * i, 8 * i + 8) =~= encode_items(rest).subrange(
                    8 * (i - 1),
                    8 * (i - 1) + 8,
                ));
            }
        }
    }
}

/// Reading a lane section that `encode_lanes` wrote at `pos` gives back the
/// lanes and stops right after the section, whatever bytes follow, provided
/// that every lane has at least one item and fewer than 2^32 of them.
pub proof fn lemma_read_encoded_lanes(b: Seq<u8>, pos: int, lanes: Seq<(u32, Seq<u64>)>)
    requires
        0 <= pos,
        pos + encode_lanes(lanes).len() <= b.len(),
        b.subrange(pos, pos + encode_lanes(lanes).len()) == encode_lanes(lanes),
        forall|i: int| 0 <= i < lanes.len() ==> 0 < (#[trigger] lanes[i]).1.len() <= u32::MAX,
    ensures
        prelude_at(b, pos) == Ok::<(Map<u32, Seq<u64>>, int), PreludeError>(
            (lanes_map(lanes), pos + encode_lanes(lanes).len()),
        ),
    decreases lanes.len(),
{
    vstd::bytes::lemma_auto_spec_u32_to_from_le_bytes();
    vstd::bytes::lemma_auto_spec_u64_to_from_le_bytes();
    let f = |l: (u32, Seq<u64>)| encode_lane(l);
    let all_end = pos + encode_lanes(lanes).len();
    let tail = b.subrange(pos, all_end);
    if lanes.len() == 0 {
        assert(lanes.map_values(f) =~= Seq::<Seq<u8>>::empty());
        assert(tail =~= spec_u32_to_le_bytes(0));
        assert(b.subrange(pos, pos + 4) =~= spec_u32_to_le_bytes(0));
        assert(u32_at(b, pos) == 0);
    } else {
        lemma_flatten_map_first(lanes, f);
        let lane = lanes[0];
        let rest = lanes.drop_first();
        let n = lane.1.len();
        lemma_encode_items(lane.1);
        let first = encode_lane(lane);
        assert(tail == first + encode_lanes(rest));
        assert(first.len() == 8 + 8 * n);
        let end = pos + 8 + 8 * n;
        assert(b.subrange(pos, pos + 4) =~= spec_u32_to_le_bytes(n as u32)) by {
            assert forall|i: int| 0 <= i < 4 implies #[trigger] b.subrange(pos, pos + 4)[i]
                == spec_u32_to_le_bytes(n as u32)[i] by {
                assert(tail[i] == first[i]);
            }
        }
        assert(n as u32 == n);
        assert(u32_at(b, pos) == n);
        assert(b.subrange(pos + 4, pos + 8) =~= spec_u32_to_le_bytes(lane.0)) by {
            assert forall|i: int| 0 <= i < 4 implies #[trigger] b.subrange(pos + 4, pos + 8)[i]
                == spec_u32_to_le_bytes(lane.0)[i] by {
                assert(tail[i + 4] == first[i + 4]);
            }
        }
        assert(u32_at(b, pos + 4) == lane.0);
        assert(items_at(b, pos + 8, n) =~= lane.1) by {
            assert forall|i: int| 0 <= i < n implies #[trigger] items_at(b, pos + 8, n)[i]
                == lane.1[i] by {
                let e = encode_items(lane.1);
                assert(e.subrange(8 * i, 8 * i + 8) == spec_u64_to_le_bytes(lane.1[i]));
                assert(b.subrange(pos + 8 + 8 * i, pos + 8 + 8 * i + 8) =~= e.subrange(
                    8 * i,
                    8 * i + 8,
                )) by {
                    assert forall|j: int| 0 <= j < 8 implies #[trigger] b.subrange(
                        pos + 8 + 8 * i,
                        pos + 8 + 8 * i + 8,
                    )[j] == e.subrange(8 * i, 8 * i + 8)[j] by {
                        assert(tail[8 + 8 * i + j] == first[8 + 8 * i + j]);
                    }
                }
            }
        }
        assert(all_end == end + encode_lanes(rest).len());
        assert(b.subrange(end, all_end) =~= encode_lanes(rest)) by {
            assert forall|i: int| 0 <= i < all_end - end implies #[trigger] b.subrange(
                end,
                all_end,
            )[i] == encode_lanes(rest)[i] by {
                assert(tail[8 + 8 * n + i] == encode_lanes(rest)[i]);
            }
        }
        assert forall|i: int| 0 <= i < rest.len() implies 0 < (#[trigger] rest[i]).1.len()
            <= u32::MAX by {
            assert(rest[i] == lanes[i + 1]);
        }
        lemma_read_encoded_lanes(b, end, rest);
    }
}

/// The lane section that `encode_lanes` writes reads back as the lanes, a
/// later lane with the same index replacing an earlier one, when every lane
/// has at least one item and fewer than 2^32 of them.
pub proof fn lemma_lane_section_roundtrip(lanes: Seq<(u32, Seq<u64>)>)
    requires
        forall|i: int| 0 <= i < lanes.len() ==> 0 < (#[trigger] lanes[i]).1.len() <= u32::MAX,
    ensures
        prelude_at(encode_lanes(lanes), 0) == Ok::<(Map<u32, Seq<u64>>, int), PreludeError>(
            (lanes_map(lanes), encode_lanes(lanes).len() as int),
        ),
{
    let b = encode_lanes(lanes);
    assert(b.subrange(0, b.len() as int) =~= b);
    lemma_read_encoded_lanes(b, 0, lanes);
}

impl Scheduler {
    /// Writes the lane section of a program: for each lane, the quantity of
    /// its items and its index as little-endian 32-bit integers, then its
    /// items as little-endian 64-bit values; a zero quantity ends the
    /// section. The quantity is the number of items truncated to 32 bits.
    pub fn lane_initializer(lanes: Vec<(u32, Vec<u64>)>) -> (bytes: Vec<u8>)
        ensures
            bytes@ == encode_lanes(lanes_seq(lanes@)),
    {
        let ghost ls = lanes_seq(lanes@);
        let ghost f = |l: (u32, Seq<u64>)| encode_lane(l);
        let mut bytes: Vec<u8> = Vec::new();
        let mut i: usize = 0;
        while i < lanes.len()
            invariant
                i <= lanes@.len(),
                ls == lanes_seq(lanes@),
                f == (|l: (u32, Seq<u64>)| encode_lane(l)),
                bytes@ == ls.take(i as int).map_values(f).flatten(),
            decreases lanes@.len() - i,
        {
            let idx = lanes[i].0;
            let items = &lanes[i].1;
            let ghost before = bytes@;
            let mut size = vstd::bytes::u32_to_le_bytes(items.len() as u32);
            let mut lane = vstd::bytes::u32_to_le_bytes(idx);
            bytes.append(&mut size);
            bytes.append(&mut lane);
            let ghost g = |x: u64| spec_u64_to_le_bytes(x);
            let mut j: usize = 0;
            while j < items.len()
                invariant
                    j <= items@.len(),
                    g == (|x: u64| spec_u64_to_le_bytes(x)),
                    bytes@ == before + spec_u32_to_le_bytes(items@.len() as u32)
                        + spec_u32_to_le_bytes(idx) + items@.take(j as int).map_values(g).flatten(),
                decreases items@.len() - j,
            {
                let mut item = vstd::bytes::u64_to_le_bytes(items[j]);
                proof {
                    lemma_flatten_map_push(items@.take(j as int), items@[j as int], g);
                    assert(items@.take(j as int).push(items@[j as int]) =~= items@.take(j + 1));
                }
                bytes.append(&mut item);
                j = j + 1;
            }
            proof {
                assert(items@.take(j as int) =~= items@);
                assert(ls[i as int] == (idx, items@));
                assert(bytes@ =~= before + encode_lane(ls[i as int]));
                lemma_flatten_map_push(ls.take(i as int), ls[i as int], f);
                assert(ls.take(i as int).push(ls[i as int]) =~= ls.take(i + 1));
            }
            i = i + 1;
        }
        proof {
            assert(ls.take(i as int) =~= ls);
        }
        let mut end = vstd::bytes::u32_to_le_bytes(0);
        bytes.append(&mut end);
        assert(bytes@ =~= encode_lanes(ls));
        bytes
    }

    /// Reads the lane section at the start of `program`: the lanes, a later
    /// lane with the same index replacing an earlier one, and the number of
    /// bytes the section takes; or what is missing.
    pub fn read_lane_prelude(program: &[u8]) -> (r: Result<
        (HashMap<u32, Vec<u64>>, usize),
        PreludeError,
    >)
        ensures
            match r {
                Ok((lanes, used)) => prelude_at(program@, 0) == Ok::<
                    (Map<u32, Seq<u64>>, int),
                    PreludeError,
                >((lanes_view(lanes@), used as int)),
                Err(e) => prelude_at(program@, 0) == Err::<
                    (Map<u32, Seq<u64>>, int),
                    PreludeError,
                >(e),
            },
    {
        let ghost s = program@;
        let len = program.len();
        let mut hm: HashMap<u32, Vec<u64>> = HashMap::new();
        let mut pos: usize = 0;
        proof {
            assert(lanes_view(hm@) =~= Map::<u32, Seq<u64>>::empty());
            match prelude_at(s, 0) {
                Ok((m, a)) => {
                    assert(Map::<u32, Seq<u64>>::empty().union_prefer_right(m) =~= m);
                },
                Err(_) => {},
            }
        }
        loop
            invariant
                s == program@,
                len == s.len(),
                pos <= len,
                prelude_at(s, 0) == overlay(lanes_view(hm@), prelude_at(s, pos as int)),
            decreases len - pos,
        {
            if len - pos < 4 {
                return Err(PreludeError::MissingSize);
            }
            let size = vstd::bytes::u32_from_le_bytes(
                vstd::slice::slice_subrange(program, pos, pos + 4),
            );
            if size == 0 {
                proof {
                    assert(lanes_view(hm@).union_prefer_right(Map::<u32, Seq<u64>>::empty())
                        =~= lanes_view(hm@));
                }
                return Ok((hm, pos + 4));
            }
            if len - pos < 8 {
                return Err(PreludeError::MissingLane);
            }
            let lane = vstd::bytes::u32_from_le_bytes(
                vstd::slice::slice_subrange(program, pos + 4, pos + 8),
            );
            let mut items: Vec<u64> = Vec::new();
            let mut q: usize = pos + 8;
            let mut j: u32 = 0;
            while j < size
                invariant
                    s == program@,
                    len == s.len(),
                    pos + 8 <= len,
                    j <= size,
                    q == pos + 8 + 8 * j,
                    q <= len,
                    items@ == items_at(s, pos + 8, j as nat),
                    prelude_at(s, 0) == overlay(lanes_view(hm@), prelude_at(s, pos as int)),
                    size == u32_at(s, pos as int),
                    size != 0,
                decreases size - j,
            {
                if len - q < 8 {
                    proof {
                        assert(pos + 8 + 8 * size > len);
                    }
                    return Err(PreludeError::MissingItems);
                }
                let item = vstd::bytes::u64_from_le_bytes(
                    vstd::slice::slice_subrange(program, q, q + 8),
                );
                items.push(item);
                q = q + 8;
                j = j + 1;
                assert(items@ =~= items_at(s, pos + 8, j as nat));
            }
            let ghost acc = lanes_view(hm@);
            let ghost items_view = items@;
            hm.insert(lane, items);
            proof {
                assert(lanes_view(hm@) =~= acc.insert(lane, items_view));
                assert(q == pos + 8 + 8 * size);
                match prelude_at(s, q as int) {
                    Ok((m, a)) => {
                        let m2 = if m.contains_key(lane) {
                            m
                        } else {
                            m.insert(lane, items_view)
                        };
                        assert(acc.union_prefer_right(m2) =~= acc.insert(
                            lane,
                            items_view,
                        ).union_prefer_right(m));
                    },
                    Err(_) => {},
                }
            }
            pos = q;
        }
    }

    /// Reads the lane section at the start of `program`, which must be
    /// complete: the lanes, a later lane with the same index replacing an
    /// earlier one, and the number of bytes the section takes.
    pub fn initialize_lanes_from_reader(program: &[u8]) -> (r: (HashMap<u32, Vec<u64>>, usize))
        requires
            prelude_at(program@, 0) is Ok,
        ensures
            prelude_at(program@, 0) == Ok::<(Map<u32, Seq<u64>>, int), PreludeError>(
                (lanes_view(r.0@), r.1 as int),
            ),
    {
        match Scheduler::read_lane_prelude(program) {
            Ok(r) => r,
            Err(_) => {
                proof {
                    assert(false);
                }
                (HashMap::new(), 0)
            },
        }
    }
}

} // verus!
