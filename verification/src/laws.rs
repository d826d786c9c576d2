use vstd::prelude::*;

use crate::connection_data::{ConnectionDataView, all_data, data_items, items_read, tagged, tagged_stream, first_stop, read_at, read_directly, start_offset, stops_at, consumed, stream_bytes, chunks_wf, cursor_wf, last_wf, next_read, push_allowed, pushed, pushed_last, Chunks};
use crate::sockets_handler::{closed_transition, read_item, Side, SocketState};
use crate::script::{sent_piece, INCOMING, OUTGOING};
use crate::direction::{carries_data, chunk_bytes, same_way, with_bytes, Direction};

verus! {

/// Adding a piece keeps a record well formed: only its last piece may be a
/// marker, and no two neighbouring pieces travel the same way.
pub proof fn lemma_push_keeps_wf(c: Chunks, v: Direction<Seq<u8>>)
    requires
        chunks_wf(c),
        push_allowed(c, v),
    ensures
        chunks_wf(pushed(c, v)),
{
    let p = pushed(c, v);
    if c.len() > 0 {
        assert forall|i: int| 0 <= i < p.len() - 1 implies carries_data(#[trigger] p[i]) by {
            if i < c.len() - 1 {
                assert(p[i] == c[i]);
            } else {
                assert(p[i] == c.last());
            }
        }
        assert forall|i: int, j: int|
            0 <= i && j == i + 1 && j < p.len() implies !same_way(#[trigger] p[i], #[trigger] p[j]) by {
            if j < c.len() {
                assert(p[i] == c[i]);
                assert(same_way(c[i], p[j]) == same_way(c[i], c[j]));
            } else {
                assert(p[i] == c.last());
                assert(p[j] == v);
            }
        }
    }
}

/// Adding a piece keeps the bookkeeping pair of the last piece in range.
pub proof fn lemma_push_keeps_last(c: Chunks, last: (int, int), v: Direction<Seq<u8>>)
    requires
        last_wf(c, last),
        push_allowed(c, v),
    ensures
        last_wf(pushed(c, v), pushed_last(c, last, v)),
{
}

/// Adding a piece leaves a read cursor valid.
pub proof fn lemma_push_keeps_cursor(c: Chunks, pos: (int, int), v: Direction<Seq<u8>>)
    requires
        chunks_wf(c),
        cursor_wf(c, pos),
        push_allowed(c, v),
    ensures
        cursor_wf(pushed(c, v), pos),
{
    let p = pushed(c, v);
    if c.len() > 0 {
        if pos.0 < c.len() - 1 {
            assert(p[pos.0] == c[pos.0]);
        } else {
            assert(chunk_bytes(c[pos.0]).len() <= chunk_bytes(p[pos.0]).len());
        }
    }
}

/// A read leaves a valid cursor valid.
pub proof fn lemma_read_keeps_cursor(c: Chunks, pos: (int, int), size: int)
    requires
        cursor_wf(c, pos),
        0 <= size,
    ensures
        cursor_wf(c, next_read(c, pos, size).1),
    decreases c.len() - pos.0,
{
    if 0 <= pos.0 < c.len() {
        let piece = c[pos.0];
        if carries_data(piece) && chunk_bytes(piece).len() == pos.1 && pos.0 + 1 < c.len() {
            lemma_read_keeps_cursor(c, (pos.0 + 1, 0), size);
        }
    }
}

/// The bytes of two records laid end to end are the bytes of each, in turn.
pub proof fn lemma_stream_concat(a: Chunks, b: Chunks)
    ensures
        stream_bytes(a + b) == stream_bytes(a) + stream_bytes(b),
    decreases b.len(),
{
    if b.len() == 0 {
        assert(a + b =~= a);
        assert(stream_bytes(a) + stream_bytes(b) =~= stream_bytes(a));
    } else {
        assert((a + b).drop_last() =~= a + b.drop_last());
        assert((a + b).last() == b.last());
        lemma_stream_concat(a, b.drop_last());
        assert(stream_bytes(a + b) =~= stream_bytes(a) + stream_bytes(b));
    }
}

/// The bytes before piece `i + 1` are the bytes before piece `i` and those of piece `i`.
pub proof fn lemma_stream_take_step(c: Chunks, i: int)
    requires
        0 <= i < c.len(),
    ensures
        stream_bytes(c.take(i + 1)) == stream_bytes(c.take(i)) + chunk_bytes(c[i]),
{
    assert(c.take(i + 1).drop_last() =~= c.take(i));
    assert(c.take(i + 1).last() == c[i]);
}

/// The bytes of a record, split around piece `i`.
pub proof fn lemma_stream_split(c: Chunks, i: int)
    requires
        0 <= i < c.len(),
    ensures
        stream_bytes(c) == stream_bytes(c.take(i)) + chunk_bytes(c[i]) + stream_bytes(c.skip(i + 1)),
{
    assert(c =~= c.take(i + 1) + c.skip(i + 1));
    lemma_stream_concat(c.take(i + 1), c.skip(i + 1));
    lemma_stream_take_step(c, i);
}

/// Writes append to the byte stream: adding a piece adds its bytes, and
/// only them, after all the bytes already held.
pub proof fn lemma_push_appends(c: Chunks, v: Direction<Seq<u8>>)
    requires
        push_allowed(c, v),
    ensures
        stream_bytes(pushed(c, v)) == stream_bytes(c) + chunk_bytes(v),
{
    let p = pushed(c, v);
    if c.len() == 0 {
        assert(p.drop_last() =~= c);
        assert(stream_bytes(c) =~= Seq::<u8>::empty());
        assert(stream_bytes(p) =~= stream_bytes(c) + chunk_bytes(v));
    } else if same_way(c.last(), v) {
        assert(p.drop_last() =~= c.drop_last());
        assert(stream_bytes(p) =~= stream_bytes(c) + chunk_bytes(v));
    } else {
        assert(p.drop_last() =~= c);
    }
}

/// Consecutive writes that travel the same way are kept as one piece:
/// adding `v` and then more bytes `b` the same way gives the record that
/// adding `v` with `b` joined to its bytes gives.
pub proof fn lemma_push_coalesces(c: Chunks, v: Direction<Seq<u8>>, b: Seq<u8>)
    requires
        carries_data(v),
        push_allowed(c, v),
        push_allowed(pushed(c, v), with_bytes(v, b)),
    ensures
        pushed(pushed(c, v), with_bytes(v, b)) == pushed(c, with_bytes(v, chunk_bytes(v) + b)),
{
    let bv = chunk_bytes(v);
    if c.len() == 0 {
        assert(pushed(c, v) == seq![v]);
        assert(pushed(pushed(c, v), with_bytes(v, b)) =~= pushed(c, with_bytes(v, bv + b)));
    } else if same_way(c.last(), v) {
        let bl = chunk_bytes(c.last());
        assert(bl + bv + b =~= bl + (bv + b));
        assert(pushed(pushed(c, v), with_bytes(v, b)) =~= pushed(c, with_bytes(v, bv + b)));
    } else {
        assert(pushed(pushed(c, v), with_bytes(v, b)) =~= pushed(c, with_bytes(v, bv + b)));
    }
}

/// A cursor never stands past the end of the bytes of its record.
pub proof fn lemma_consumed_bound(c: Chunks, pos: (int, int))
    requires
        cursor_wf(c, pos),
    ensures
        0 <= consumed(c, pos) <= stream_bytes(c).len(),
{
    if c.len() == 0 {
        assert(c.take(0) =~= Seq::<Direction<Seq<u8>>>::empty());
    } else {
        lemma_stream_split(c, pos.0);
    }
}

/// Reads hand out the byte stream in order, without loss or repetition:
/// a read gives the bytes from the cursor on, at most `size` of them and at
/// least one when `size` is positive and any is left; a piece that carries
/// data travelled the way of the piece the cursor lands in; a marker comes
/// only once every byte has been read, `Closed` only from a record that ends
/// with it and `NotReady` only from one that does not.
pub proof fn lemma_read_in_order(c: Chunks, pos: (int, int), size: int)
    requires
        chunks_wf(c),
        cursor_wf(c, pos),
        0 <= size,
    ensures
        ({
            let (r, p2) = next_read(c, pos, size);
            &&& cursor_wf(c, p2)
            &&& consumed(c, pos) <= consumed(c, p2) <= stream_bytes(c).len()
            &&& chunk_bytes(r) == stream_bytes(c).subrange(consumed(c, pos), consumed(c, p2))
            &&& chunk_bytes(r).len() <= size
            &&& carries_data(r) ==> 0 <= p2.0 < c.len() && same_way(r, c[p2.0])
            &&& carries_data(r) && 0 < size ==> chunk_bytes(r).len() > 0
            &&& !carries_data(r) ==> consumed(c, p2) == stream_bytes(c).len()
            &&& r is Closed ==> c.len() > 0 && c.last() is Closed
            &&& r is NotReady ==> !(c.len() > 0 && c.last() is Closed)
        }),
    decreases c.len() - pos.0,
{
    lemma_read_keeps_cursor(c, pos, size);
    let (r, p2) = next_read(c, pos, size);
    lemma_consumed_bound(c, p2);
    if c.len() == 0 {
        assert(c.take(0) =~= Seq::<Direction<Seq<u8>>>::empty());
        assert(stream_bytes(c).subrange(0, 0) =~= Seq::<u8>::empty());
    } else {
        let i = pos.0;
        let piece = c[i];
        let b = chunk_bytes(piece);
        lemma_stream_split(c, i);
        let s_i = stream_bytes(c.take(i));
        let rest = stream_bytes(c.skip(i + 1));
        if carries_data(piece) {
            if b.len() == pos.1 {
                if i + 1 < c.len() {
                    lemma_stream_take_step(c, i);
                    lemma_read_in_order(c, (i + 1, 0), size);
                } else {
                    assert(c.skip(i + 1) =~= Seq::<Direction<Seq<u8>>>::empty());
                    assert(stream_bytes(c.skip(i + 1)) =~= Seq::<u8>::empty());
                    assert(stream_bytes(c).subrange(consumed(c, pos), consumed(c, p2)) =~= Seq::<u8>::empty());
                }
            } else {
                let end = if b.len() - pos.1 <= size { b.len() as int } else { pos.1 + size };
                assert(p2 == (i, end));
                assert(stream_bytes(c).subrange(s_i.len() + pos.1, s_i.len() + end)
                    =~= b.subrange(pos.1, end));
            }
        } else {
            assert(i == c.len() - 1);
            assert(c.skip(i + 1) =~= Seq::<Direction<Seq<u8>>>::empty());
            assert(stream_bytes(c.skip(i + 1)) =~= Seq::<u8>::empty());
            assert(stream_bytes(c).subrange(consumed(c, pos), consumed(c, p2)) =~= Seq::<u8>::empty());
        }
    }
}

/// With a positive size, a read gives `NotReady` exactly when every byte has
/// been read and the record does not end with `Closed`, and gives `Closed`
/// exactly when every byte has been read and the record ends with it;
/// otherwise it gives data.
pub proof fn lemma_read_outcome(c: Chunks, pos: (int, int), size: int)
    requires
        chunks_wf(c),
        cursor_wf(c, pos),
        0 < size,
    ensures
        ({
            let r = next_read(c, pos, size).0;
            let all_read = consumed(c, pos) == stream_bytes(c).len();
            let ends_closed = c.len() > 0 && c.last() is Closed;
            &&& r is NotReady <==> all_read && !ends_closed
            &&& r is Closed <==> all_read && ends_closed
            &&& carries_data(r) <==> !all_read
        }),
{
    lemma_read_in_order(c, pos, size);
    lemma_consumed_bound(c, pos);
}

/// When the only unread bytes are the last `k` bytes of the last piece, a
/// read hands out the first `min(k, size)` of them, the way that piece
/// travelled, and moves the cursor past them.
pub proof fn lemma_read_tail(p: Chunks, pos: (int, int), size: int, k: int)
    requires
        chunks_wf(p),
        cursor_wf(p, pos),
        p.len() > 0,
        carries_data(p.last()),
        0 < k <= chunk_bytes(p.last()).len(),
        0 < size,
        consumed(p, pos) + k == stream_bytes(p).len(),
    ensures
        ({
            let l = chunk_bytes(p.last()).len() as int;
            let n = if k <= size { k } else { size };
            next_read(p, pos, size) == (
                with_bytes(p.last(), chunk_bytes(p.last()).subrange(l - k, l - k + n)),
                (p.len() - 1, l - k + n),
            )
        }),
    decreases p.len() - pos.0,
{
    let i = pos.0;
    lemma_stream_split(p, i);
    if i < p.len() - 1 {
        let tail = p.skip(i + 1);
        assert(tail.len() > 0);
        assert(tail.last() == p.last());
        assert(stream_bytes(tail) == stream_bytes(tail.drop_last()) + chunk_bytes(p.last()));
        assert(carries_data(p[i]));
        lemma_stream_take_step(p, i);
        lemma_read_tail(p, (i + 1, 0), size, k);
    } else {
        assert(p.skip(i + 1) =~= Seq::<Direction<Seq<u8>>>::empty());
        assert(stream_bytes(p.skip(i + 1)) =~= Seq::<u8>::empty());
    }
}

/// A read gives back what a write wrote: on a record whose every byte has
/// been read, adding a piece that carries data and then reading with a
/// positive `size` hands out the first `min(size, length)` bytes of that
/// piece, the way it travelled; when `size` covers the piece, the read gives
/// the piece itself and leaves every byte read.
pub proof fn lemma_write_then_read(c: Chunks, pos: (int, int), v: Direction<Seq<u8>>, size: int)
    requires
        chunks_wf(c),
        cursor_wf(c, pos),
        consumed(c, pos) == stream_bytes(c).len(),
        push_allowed(c, v),
        carries_data(v),
        0 < chunk_bytes(v).len(),
        0 < size,
    ensures
        ({
            let bv = chunk_bytes(v);
            let n = if bv.len() <= size { bv.len() as int } else { size };
            next_read(pushed(c, v), pos, size).0 == with_bytes(v, bv.take(n))
        }),
        chunk_bytes(v).len() <= size ==> next_read(pushed(c, v), pos, size).0 == v,
        chunk_bytes(v).len() <= size ==> consumed(pushed(c, v), next_read(pushed(c, v), pos, size).1)
            == stream_bytes(pushed(c, v)).len(),
{
    let p = pushed(c, v);
    let bv = chunk_bytes(v);
    let n = if bv.len() <= size { bv.len() as int } else { size };
    lemma_push_keeps_wf(c, v);
    lemma_push_keeps_cursor(c, pos, v);
    lemma_push_appends(c, v);
    assert(p.take(pos.0) =~= c.take(pos.0));
    assert(consumed(p, pos) == consumed(c, pos));
    let l = chunk_bytes(p.last()).len() as int;
    assert(chunk_bytes(p.last()).subrange(l - bv.len(), l) =~= bv);
    assert(chunk_bytes(p.last()).subrange(l - bv.len(), l - bv.len() + n) =~= bv.take(n));
    assert(bv.take(bv.len() as int) =~= bv);
    lemma_read_tail(p, pos, size, bv.len() as int);
    lemma_stream_split(p, p.len() - 1);
    assert(p.skip(p.len() as int) =~= Seq::<Direction<Seq<u8>>>::empty());
    assert(stream_bytes(p.skip(p.len() as int)) =~= Seq::<u8>::empty());
}

/// On a connection record whose received traffic has all been read,
/// `push_original(v)` followed by `get(size)` with a positive `size` gives the
/// first `min(size, length)` bytes of `v`, the way `v` travelled (`v` itself
/// when `size` covers it); the same holds of `push_modified` and
/// `_get_modified` on the rewritten traffic.
pub proof fn lemma_record_write_then_read(s: ConnectionDataView, v: Direction<Seq<u8>>, size: int)
    requires
        s.wf(),
        carries_data(v),
        0 < chunk_bytes(v).len(),
        0 < size,
    ensures
        ({
            let bv = chunk_bytes(v);
            let n = if bv.len() <= size { bv.len() as int } else { size };
            &&& consumed(s.original, s.read_position) == stream_bytes(s.original).len()
                && push_allowed(s.original, v)
                ==> s.push_original(v).read_original(size).0 == with_bytes(v, bv.take(n))
            &&& consumed(s.modified, s.write_position) == stream_bytes(s.modified).len()
                && push_allowed(s.modified, v)
                ==> s.push_modified(v).read_modified(size).0 == with_bytes(v, bv.take(n))
        }),
{
    if consumed(s.original, s.read_position) == stream_bytes(s.original).len() && push_allowed(
        s.original,
        v,
    ) {
        lemma_write_then_read(s.original, s.read_position, v, size);
    }
    if consumed(s.modified, s.write_position) == stream_bytes(s.modified).len() && push_allowed(
        s.modified,
        v,
    ) {
        lemma_write_then_read(s.modified, s.write_position, v, size);
    }
}

/// The two records of a connection do not disturb each other: adding a piece
/// to the rewritten traffic leaves the received traffic, both read cursors,
/// the index that `get_no` reports and what a read of the received traffic
/// gives as they were; adding a piece to the received traffic does the same
/// for the rewritten traffic and its reads.
pub proof fn lemma_records_independent(s: ConnectionDataView, v: Direction<Seq<u8>>, size: int)
    ensures
        ({
            let t = s.push_modified(v);
            &&& t.original == s.original
            &&& t.original_last_position == s.original_last_position
            &&& t.read_position == s.read_position
            &&& t.write_position == s.write_position
            &&& t.read_original(size).0 == s.read_original(size).0
            &&& t.read_original(size).1.read_position == s.read_original(size).1.read_position
        }),
        ({
            let t = s.push_original(v);
            &&& t.modified == s.modified
            &&& t.modified_last_position == s.modified_last_position
            &&& t.read_position == s.read_position
            &&& t.write_position == s.write_position
            &&& t.read_modified(size).0 == s.read_modified(size).0
            &&& t.read_modified(size).1.write_position == s.read_modified(size).1.write_position
        }),
{
}

/// The read that `next_read` describes step by step is the direct one: it
/// stops at the first piece at or after the cursor that is a marker or has
/// unread bytes, and gives from it what `read_at` says.
pub proof fn lemma_read_directly(c: Chunks, pos: (int, int), size: int)
    requires
        cursor_wf(c, pos),
        0 <= size,
    ensures
        next_read(c, pos, size) == read_directly(c, pos, size),
    decreases c.len() - pos.0,
{
    if c.len() > 0 {
        let i = pos.0;
        if stops_at(c, pos, i) {
            assert(first_stop(c, pos, i));
            let j = choose|j: int| first_stop(c, pos, j);
            if j != i {
                assert(!stops_at(c, pos, i));
            }
            assert(j == i);
        } else if i + 1 < c.len() {
            let q = (i + 1, 0int);
            lemma_read_directly(c, q, size);
            assert forall|j: int| first_stop(c, pos, j) <==> first_stop(c, q, j) by {
                assert(start_offset(pos, j) == start_offset(q, j) || j == i);
                if first_stop(c, q, j) {
                    assert forall|k: int| pos.0 <= k < j implies !stops_at(c, pos, k) by {
                        if k != i {
                            assert(start_offset(pos, k) == start_offset(q, k));
                            assert(!stops_at(c, q, k));
                        }
                    }
                }
                if first_stop(c, pos, j) {
                    assert(j != i);
                    assert forall|k: int| q.0 <= k < j implies !stops_at(c, q, k) by {
                        assert(start_offset(pos, k) == start_offset(q, k));
                        assert(!stops_at(c, pos, k));
                    }
                }
            }
            if exists|j: int| first_stop(c, pos, j) {
                let j = choose|j: int| first_stop(c, pos, j);
                assert(first_stop(c, q, j));
                let j2 = choose|j: int| first_stop(c, q, j);
                assert(first_stop(c, pos, j2));
                if j < j2 {
                    assert(!stops_at(c, q, j));
                } else if j2 < j {
                    assert(!stops_at(c, pos, j2));
                }
                assert(j == j2);
                assert(start_offset(pos, j) == start_offset(q, j));
            } else {
                if exists|j: int| first_stop(c, q, j) {
                    let j = choose|j: int| first_stop(c, q, j);
                    assert(first_stop(c, pos, j));
                }
            }
        } else {
            if exists|j: int| first_stop(c, pos, j) {
                let j = choose|j: int| first_stop(c, pos, j);
                assert(j == i);
            }
        }
    }
}

/// Both reads of a connection record are the direct read of `read_directly`:
/// `get` on the received traffic and `_get_modified` on the rewritten one.
pub proof fn lemma_record_read_directly(s: ConnectionDataView, size: int)
    requires
        s.wf(),
        0 <= size,
    ensures
        s.read_original(size).0 == read_directly(s.original, s.read_position, size).0,
        s.read_original(size).1.read_position == read_directly(s.original, s.read_position, size).1,
        s.read_modified(size).0 == read_directly(s.modified, s.write_position, size).0,
        s.read_modified(size).1.write_position == read_directly(s.modified, s.write_position, size).1,
{
    lemma_read_directly(s.original, s.read_position, size);
    lemma_read_directly(s.modified, s.write_position, size);
}

/// The items of two records laid end to end are the items of each, in turn.
pub proof fn lemma_tagged_concat(a: Chunks, b: Chunks)
    ensures
        tagged_stream(a + b) == tagged_stream(a) + tagged_stream(b),
    decreases b.len(),
{
    if b.len() == 0 {
        assert(a + b =~= a);
        assert(tagged_stream(a) + tagged_stream(b) =~= tagged_stream(a));
    } else {
        assert((a + b).drop_last() =~= a + b.drop_last());
        assert((a + b).last() == b.last());
        lemma_tagged_concat(a, b.drop_last());
        assert(tagged_stream(a + b) =~= tagged_stream(a) + tagged_stream(b));
    }
}

/// The items before piece `i + 1` are the items before piece `i` and those of piece `i`.
pub proof fn lemma_tagged_take_step(c: Chunks, i: int)
    requires
        0 <= i < c.len(),
    ensures
        tagged_stream(c.take(i + 1)) == tagged_stream(c.take(i)) + tagged(c[i]),
{
    assert(c.take(i + 1).drop_last() =~= c.take(i));
    assert(c.take(i + 1).last() == c[i]);
}

/// The items of a record, split around piece `i`.
pub proof fn lemma_tagged_split(c: Chunks, i: int)
    requires
        0 <= i < c.len(),
    ensures
        tagged_stream(c) == tagged_stream(c.take(i)) + tagged(c[i]) + tagged_stream(c.skip(i + 1)),
{
    assert(c =~= c.take(i + 1) + c.skip(i + 1));
    lemma_tagged_concat(c.take(i + 1), c.skip(i + 1));
    lemma_tagged_take_step(c, i);
}

/// A piece that carries data has one item per byte; its items split as its
/// bytes do.
pub proof fn lemma_tagged_bytes(v: Direction<Seq<u8>>, a: Seq<u8>, b: Seq<u8>, o: int, e: int)
    requires
        carries_data(v),
        0 <= o <= e <= b.len(),
    ensures
        tagged(v).len() == chunk_bytes(v).len(),
        tagged(with_bytes(v, a + b)) == tagged(with_bytes(v, a)) + tagged(with_bytes(v, b)),
        tagged(with_bytes(v, b.subrange(o, e))) == tagged(with_bytes(v, b)).subrange(o, e),
        with_bytes(v, chunk_bytes(v)) == v,
{
    if v is Out {
        let f = |x: u8| Direction::<u8>::Out(x);
        assert((a + b).map_values(f) =~= a.map_values(f) + b.map_values(f));
        assert(b.subrange(o, e).map_values(f) =~= b.map_values(f).subrange(o, e));
    } else {
        let f = |x: u8| Direction::<u8>::In(x);
        assert((a + b).map_values(f) =~= a.map_values(f) + b.map_values(f));
        assert(b.subrange(o, e).map_values(f) =~= b.map_values(f).subrange(o, e));
    }
}

/// In a record of data pieces there is one item per byte.
pub proof fn lemma_tagged_len(c: Chunks)
    requires
        all_data(c),
    ensures
        tagged_stream(c).len() == stream_bytes(c).len(),
    decreases c.len(),
{
    if c.len() > 0 {
        assert(all_data(c.drop_last()));
        lemma_tagged_len(c.drop_last());
        lemma_tagged_bytes(c.last(), Seq::empty(), Seq::empty(), 0, 0);
    }
}

/// Writes append to the item stream: adding a piece adds its items (its
/// bytes tagged with their direction, or the marker as one item) after all
/// the items already held.
pub proof fn lemma_push_appends_tagged(c: Chunks, v: Direction<Seq<u8>>)
    requires
        push_allowed(c, v),
    ensures
        tagged_stream(pushed(c, v)) == tagged_stream(c) + tagged(v),
{
    let p = pushed(c, v);
    if c.len() == 0 {
        assert(p.drop_last() =~= c);
        assert(tagged_stream(c) =~= Seq::<Direction<u8>>::empty());
        assert(tagged_stream(p) =~= tagged_stream(c) + tagged(v));
    } else if same_way(c.last(), v) {
        let bl = chunk_bytes(c.last());
        let bv = chunk_bytes(v);
        assert(p.drop_last() =~= c.drop_last());
        lemma_tagged_bytes(v, bl, bv, 0, 0);
        assert(with_bytes(v, bl) == c.last());
        assert(with_bytes(v, bv) == v);
        assert(tagged_stream(p) =~= tagged_stream(c) + tagged(v));
    } else {
        assert(p.drop_last() =~= c);
    }
}

/// The items before a cursor are a prefix of the record's items, one for
/// each byte before the cursor.
pub proof fn lemma_items_prefix(c: Chunks, pos: (int, int))
    requires
        chunks_wf(c),
        cursor_wf(c, pos),
    ensures
        items_read(c, pos).len() == consumed(c, pos),
        items_read(c, pos) == tagged_stream(c).take(items_read(c, pos).len() as int),
{
    if c.len() == 0 {
        assert(c.take(0) =~= Seq::<Direction<Seq<u8>>>::empty());
        assert(tagged_stream(c).take(0) =~= Seq::<Direction<u8>>::empty());
    } else {
        let i = pos.0;
        lemma_tagged_split(c, i);
        assert(all_data(c.take(i)));
        lemma_tagged_len(c.take(i));
        if carries_data(c[i]) {
            lemma_tagged_bytes(c[i], Seq::empty(), Seq::empty(), 0, 0);
        }
        assert(items_read(c, pos) =~= tagged_stream(c).take(items_read(c, pos).len() as int));
    }
}

/// A read hands out exactly the items that follow those before the cursor:
/// the items before the cursor afterwards are those before it and the items
/// of what the read gave.
pub proof fn lemma_read_items(c: Chunks, pos: (int, int), size: int)
    requires
        chunks_wf(c),
        cursor_wf(c, pos),
        0 <= size,
    ensures
        items_read(c, next_read(c, pos, size).1) == items_read(c, pos) + data_items(
            next_read(c, pos, size).0,
        ),
    decreases c.len() - pos.0,
{
    let (r, p2) = next_read(c, pos, size);
    if c.len() == 0 {
        assert(items_read(c, pos) + data_items(r) =~= items_read(c, pos));
    } else {
        let i = pos.0;
        let piece = c[i];
        let b = chunk_bytes(piece);
        if carries_data(piece) {
            lemma_tagged_bytes(piece, Seq::empty(), b, 0, 0);
            if b.len() == pos.1 {
                if i + 1 < c.len() {
                    lemma_tagged_take_step(c, i);
                    assert(tagged(piece).take(pos.1) =~= tagged(piece));
                    assert(items_read(c, (i + 1, 0)) =~= items_read(c, pos));
                    lemma_read_items(c, (i + 1, 0), size);
                } else {
                    assert(items_read(c, pos) + data_items(r) =~= items_read(c, pos));
                }
            } else {
                let end = if b.len() - pos.1 <= size { b.len() as int } else { pos.1 + size };
                lemma_tagged_bytes(piece, Seq::empty(), b, pos.1, end);
                assert(tagged(piece).take(end) =~= tagged(piece).take(pos.1) + tagged(piece).subrange(
                    pos.1,
                    end,
                ));
                assert(items_read(c, p2) =~= items_read(c, pos) + data_items(r));
            }
        } else {
            assert(data_items(piece).take(pos.1) =~= data_items(piece).take(0));
            assert(items_read(c, pos) + data_items(r) =~= items_read(c, pos));
        }
    }
}

/// Adding a piece leaves the items before a cursor as they were.
pub proof fn lemma_push_keeps_items(c: Chunks, pos: (int, int), v: Direction<Seq<u8>>)
    requires
        chunks_wf(c),
        cursor_wf(c, pos),
        push_allowed(c, v),
    ensures
        items_read(pushed(c, v), pos) == items_read(c, pos),
{
    let p = pushed(c, v);
    if c.len() == 0 {
        assert(p.take(0) =~= Seq::<Direction<Seq<u8>>>::empty());
        assert(items_read(p, pos) =~= Seq::<Direction<u8>>::empty());
    } else {
        let i = pos.0;
        assert(p.take(i) =~= c.take(i));
        if i == c.len() - 1 && same_way(c.last(), v) {
            let bl = chunk_bytes(c.last());
            lemma_tagged_bytes(v, bl, chunk_bytes(v), 0, 0);
            lemma_tagged_bytes(c.last(), Seq::empty(), Seq::empty(), 0, 0);
            assert(with_bytes(v, bl) == c.last());
            assert(data_items(p[i]).take(pos.1) =~= data_items(c[i]).take(pos.1));
        } else {
            assert(p[i] == c[i]);
        }
    }
}

/// One step of a history of a connection record: adding a piece to, or
/// reading at most some bytes from, either of its two records.
pub enum RecordOp {
    PushOriginal(Direction<Seq<u8>>),
    PushModified(Direction<Seq<u8>>),
    Get(int),
    GetModified(int),
}

/// A connection record after a history, with, for each of its two records,
/// the items of all pieces added (`pushed_*`) and of all reads (`read_*`).
pub struct Replay {
    pub state: ConnectionDataView,
    pub pushed_original: Seq<Direction<u8>>,
    pub read_original: Seq<Direction<u8>>,
    pub pushed_modified: Seq<Direction<u8>>,
    pub read_modified: Seq<Direction<u8>>,
}

/// Plays a history of operations from a fresh record.
pub open spec fn replay(ops: Seq<RecordOp>) -> Replay
    decreases ops.len(),
{
    if ops.len() == 0 {
        Replay {
            state: ConnectionDataView::empty(),
            pushed_original: Seq::empty(),
            read_original: Seq::empty(),
            pushed_modified: Seq::empty(),
            read_modified: Seq::empty(),
        }
    } else {
        let prev = replay(ops.drop_last());
        match ops.last() {
            RecordOp::PushOriginal(v) => Replay {
                state: prev.state.push_original(v),
                pushed_original: prev.pushed_original + tagged(v),
                ..prev
            },
            RecordOp::PushModified(v) => Replay {
                state: prev.state.push_modified(v),
                pushed_modified: prev.pushed_modified + tagged(v),
                ..prev
            },
            RecordOp::Get(size) => Replay {
                state: prev.state.read_original(size).1,
                read_original: prev.read_original + data_items(prev.state.read_original(size).0),
                ..prev
            },
            RecordOp::GetModified(size) => Replay {
                state: prev.state.read_modified(size).1,
                read_modified: prev.read_modified + data_items(prev.state.read_modified(size).0),
                ..prev
            },
        }
    }
}

/// A history that the operations allow and that adds only pieces carrying
/// data: every piece added carries data and may be added where it is, and
/// every read size is at least zero.
pub open spec fn data_history(ops: Seq<RecordOp>) -> bool
    decreases ops.len(),
{
    if ops.len() == 0 {
        true
    } else {
        &&& data_history(ops.drop_last())
        &&& {
            let prev = replay(ops.drop_last()).state;
            match ops.last() {
                RecordOp::PushOriginal(v) => carries_data(v) && push_allowed(prev.original, v),
                RecordOp::PushModified(v) => carries_data(v) && push_allowed(prev.modified, v),
                RecordOp::Get(size) => 0 <= size,
                RecordOp::GetModified(size) => 0 <= size,
            }
        }
    }
}

/// Over any interleaving of writes and reads on either record of a fresh
/// connection record, what the reads have handed out, item by item with its
/// direction, is a prefix of what was written; right after a read that gives
/// `NotReady` it is the whole of it. No byte is lost, repeated, reordered or
/// given the wrong direction.
pub proof fn lemma_reads_deliver_writes(ops: Seq<RecordOp>)
    requires
        data_history(ops),
    ensures
        ({
            let h = replay(ops);
            &&& h.state.wf()
            &&& all_data(h.state.original) && all_data(h.state.modified)
            &&& tagged_stream(h.state.original) == h.pushed_original
            &&& tagged_stream(h.state.modified) == h.pushed_modified
            &&& h.read_original == items_read(h.state.original, h.state.read_position)
            &&& h.read_modified == items_read(h.state.modified, h.state.write_position)
            &&& h.read_original == h.pushed_original.take(h.read_original.len() as int)
            &&& h.read_modified == h.pushed_modified.take(h.read_modified.len() as int)
        }),
        ops.len() > 0 ==> (ops.last() matches RecordOp::Get(size) && replay(
            ops.drop_last(),
        ).state.read_original(size).0 is NotReady ==> replay(ops).read_original == replay(
            ops,
        ).pushed_original),
        ops.len() > 0 ==> (ops.last() matches RecordOp::GetModified(size) && replay(
            ops.drop_last(),
        ).state.read_modified(size).0 is NotReady ==> replay(ops).read_modified == replay(
            ops,
        ).pushed_modified),
    decreases ops.len(),
{
    let h = replay(ops);
    if ops.len() == 0 {
        assert(h.state.original =~= Seq::<Direction<Seq<u8>>>::empty());
        assert(items_read(h.state.original, h.state.read_position) =~= Seq::<Direction<u8>>::empty());
        assert(items_read(h.state.modified, h.state.write_position) =~= Seq::<Direction<u8>>::empty());
        assert(h.pushed_original.take(0) =~= Seq::<Direction<u8>>::empty());
        assert(h.pushed_modified.take(0) =~= Seq::<Direction<u8>>::empty());
    } else {
        let prev_ops = ops.drop_last();
        lemma_reads_deliver_writes(prev_ops);
        let prev = replay(prev_ops);
        let s = prev.state;
        match ops.last() {
            RecordOp::PushOriginal(v) => {
                lemma_push_keeps_wf(s.original, v);
                lemma_push_keeps_last(s.original, s.original_last_position, v);
                lemma_push_keeps_cursor(s.original, s.read_position, v);
                lemma_push_appends_tagged(s.original, v);
                lemma_push_keeps_items(s.original, s.read_position, v);
                let p = pushed(s.original, v);
                assert(all_data(p)) by {
                    assert forall|i: int| 0 <= i < p.len() implies carries_data(#[trigger] p[i]) by {
                        if i < s.original.len() && !(i == s.original.len() - 1 && same_way(s.original.last(), v)) {
                            assert(p[i] == s.original[i]);
                        }
                    }
                }
                lemma_items_prefix(p, s.read_position);
                assert(h.pushed_original.take(h.read_original.len() as int) =~= prev.pushed_original.take(
                    prev.read_original.len() as int,
                ));
            },
            RecordOp::PushModified(v) => {
                lemma_push_keeps_wf(s.modified, v);
                lemma_push_keeps_last(s.modified, s.modified_last_position, v);
                lemma_push_keeps_cursor(s.modified, s.write_position, v);
                lemma_push_appends_tagged(s.modified, v);
                lemma_push_keeps_items(s.modified, s.write_position, v);
                let p = pushed(s.modified, v);
                assert(all_data(p)) by {
                    assert forall|i: int| 0 <= i < p.len() implies carries_data(#[trigger] p[i]) by {
                        if i < s.modified.len() && !(i == s.modified.len() - 1 && same_way(s.modified.last(), v)) {
                            assert(p[i] == s.modified[i]);
                        }
                    }
                }
                lemma_items_prefix(p, s.write_position);
                assert(h.pushed_modified.take(h.read_modified.len() as int) =~= prev.pushed_modified.take(
                    prev.read_modified.len() as int,
                ));
            },
            RecordOp::Get(size) => {
                let c = s.original;
                lemma_read_keeps_cursor(c, s.read_position, size);
                lemma_read_items(c, s.read_position, size);
                lemma_read_in_order(c, s.read_position, size);
                let p2 = next_read(c, s.read_position, size).1;
                lemma_items_prefix(c, p2);
                lemma_tagged_len(c);
                if next_read(c, s.read_position, size).0 is NotReady {
                    assert(h.read_original =~= h.pushed_original);
                }
            },
            RecordOp::GetModified(size) => {
                let c = s.modified;
                lemma_read_keeps_cursor(c, s.write_position, size);
                lemma_read_items(c, s.write_position, size);
                lemma_read_in_order(c, s.write_position, size);
                let p2 = next_read(c, s.write_position, size).1;
                lemma_items_prefix(c, p2);
                lemma_tagged_len(c);
                if next_read(c, s.write_position, size).0 is NotReady {
                    assert(h.read_modified =~= h.pushed_modified);
                }
            },
        }
    }
}

/// True when the client socket has reached end of stream.
pub open spec fn client_closed(s: SocketState) -> bool {
    s is ClientClosed || s is AllClosed
}

/// True when the server socket has reached end of stream.
pub open spec fn server_closed(s: SocketState) -> bool {
    s is ServerClosed || s is AllClosed
}

/// End of stream on a socket marks that socket closed and never reopens the
/// other one, and the traffic ends exactly when both have closed.
pub proof fn lemma_closing_is_final(state: SocketState, side: Side)
    requires
        !(state is AllClosed),
    ensures
        ({
            let (next, finished) = closed_transition(state, side);
            &&& client_closed(state) ==> client_closed(next)
            &&& server_closed(state) ==> server_closed(next)
            &&& side is Client ==> client_closed(next)
            &&& side is Server ==> server_closed(next)
            &&& side is Client ==> (server_closed(next) <==> server_closed(state))
            &&& side is Server ==> (client_closed(next) <==> client_closed(state))
            &&& finished <==> (client_closed(next) && server_closed(next))
        }),
{
}

/// What may be added to a record: anything to an empty record; after a piece
/// that carries data, a piece of data travelling either way and the `Closed`
/// marker; never `NotReady` after a piece, and nothing after a marker.
pub proof fn lemma_push_allowed_cases(c: Chunks, v: Direction<Seq<u8>>)
    ensures
        c.len() == 0 ==> push_allowed(c, v),
        c.len() > 0 && (c.last() is In || c.last() is Out) && (v is In || v is Out || v is Closed)
            ==> push_allowed(c, v),
        c.len() > 0 && v is NotReady ==> !push_allowed(c, v),
        c.len() > 0 && (c.last() is NotReady || c.last() is Closed) ==> !push_allowed(c, v),
{
}

/// How a piece is added to a record, whatever was added before: the first
/// piece of a record becomes its only piece; a piece of data travelling the
/// way of the last piece has its bytes joined to that piece's bytes; any other
/// piece (data travelling the other way, or a marker) is appended after the
/// last piece, unchanged. This holds of the received traffic under
/// `push_original` and of the rewritten traffic under `push_modified`, and
/// each of these leaves the other record and both read cursors as they were.
pub proof fn lemma_push_shape(s: ConnectionDataView, v: Direction<Seq<u8>>)
    ensures
        ({
            let c = s.original;
            let t = s.push_original(v);
            &&& c.len() == 0 ==> t.original == seq![v]
            &&& c.len() > 0 && v is Closed ==> t.original == c.push(Direction::Closed)
            &&& c.len() > 0 && v is NotReady ==> t.original == c.push(Direction::NotReady)
            &&& c.len() > 0 && c.last() is In && v is In ==> t.original == c.drop_last().push(
                Direction::In(c.last()->In_0 + v->In_0),
            )
            &&& c.len() > 0 && c.last() is Out && v is Out ==> t.original == c.drop_last().push(
                Direction::Out(c.last()->Out_0 + v->Out_0),
            )
            &&& c.len() > 0 && !(c.last() is In && v is In) && !(c.last() is Out && v is Out)
                ==> t.original == c.push(v)
            &&& t.modified == s.modified
            &&& t.read_position == s.read_position
            &&& t.write_position == s.write_position
            &&& t.modified_last_position == s.modified_last_position
        }),
        ({
            let c = s.modified;
            let t = s.push_modified(v);
            &&& c.len() == 0 ==> t.modified == seq![v]
            &&& c.len() > 0 && v is Closed ==> t.modified == c.push(Direction::Closed)
            &&& c.len() > 0 && v is NotReady ==> t.modified == c.push(Direction::NotReady)
            &&& c.len() > 0 && c.last() is In && v is In ==> t.modified == c.drop_last().push(
                Direction::In(c.last()->In_0 + v->In_0),
            )
            &&& c.len() > 0 && c.last() is Out && v is Out ==> t.modified == c.drop_last().push(
                Direction::Out(c.last()->Out_0 + v->Out_0),
            )
            &&& c.len() > 0 && !(c.last() is In && v is In) && !(c.last() is Out && v is Out)
                ==> t.modified == c.push(v)
            &&& t.original == s.original
            &&& t.read_position == s.read_position
            &&& t.write_position == s.write_position
            &&& t.original_last_position == s.original_last_position
        }),
{
    let c = s.original;
    if c.len() > 0 {
        assert(c.drop_last().push(Direction::In(c.last()->In_0 + v->In_0)) =~= c.update(
            c.len() - 1,
            Direction::In(c.last()->In_0 + v->In_0),
        ));
        assert(c.drop_last().push(Direction::Out(c.last()->Out_0 + v->Out_0)) =~= c.update(
            c.len() - 1,
            Direction::Out(c.last()->Out_0 + v->Out_0),
        ));
    }
    let m = s.modified;
    if m.len() > 0 {
        assert(m.drop_last().push(Direction::In(m.last()->In_0 + v->In_0)) =~= m.update(
            m.len() - 1,
            Direction::In(m.last()->In_0 + v->In_0),
        ));
        assert(m.drop_last().push(Direction::Out(m.last()->Out_0 + v->Out_0)) =~= m.update(
            m.len() - 1,
            Direction::Out(m.last()->Out_0 + v->Out_0),
        ));
    }
}

/// On a record whose every byte has been read, adding the `Closed` marker and
/// reading gives `Closed`, and reading again gives `Closed` again.
pub proof fn lemma_closed_read(c: Chunks, pos: (int, int), size: int)
    requires
        chunks_wf(c),
        cursor_wf(c, pos),
        consumed(c, pos) == stream_bytes(c).len(),
        push_allowed(c, Direction::Closed),
        0 < size,
    ensures
        ({
            let p = pushed(c, Direction::Closed);
            let (r, p2) = next_read(p, pos, size);
            &&& r == Direction::<Seq<u8>>::Closed
            &&& next_read(p, p2, size).0 == Direction::<Seq<u8>>::Closed
        }),
{
    let v = Direction::<Seq<u8>>::Closed;
    let p = pushed(c, v);
    lemma_push_keeps_wf(c, v);
    lemma_push_keeps_cursor(c, pos, v);
    lemma_push_appends(c, v);
    assert(stream_bytes(p) =~= stream_bytes(c));
    if c.len() == 0 {
        assert(c.take(0) =~= Seq::<Direction<Seq<u8>>>::empty());
        assert(p.take(0) =~= Seq::<Direction<Seq<u8>>>::empty());
    } else {
        assert(p.take(pos.0) =~= c.take(pos.0));
    }
    assert(consumed(p, pos) == consumed(c, pos));
    lemma_read_outcome(p, pos, size);
    lemma_read_in_order(p, pos, size);
    let p2 = next_read(p, pos, size).1;
    lemma_read_outcome(p, p2, size);
}

/// The end of the traffic reaches the reader: on a connection record whose
/// received traffic has all been read, `push_original(Closed)` makes the next
/// `get` with a positive size give `Closed`, and every read after it too; the
/// same holds of `push_modified(Closed)` and `_get_modified`.
pub proof fn lemma_record_closed_read(s: ConnectionDataView, size: int)
    requires
        s.wf(),
        0 < size,
    ensures
        ({
            let t = s.push_original(Direction::Closed);
            let (r, t2) = t.read_original(size);
            consumed(s.original, s.read_position) == stream_bytes(s.original).len() && push_allowed(
                s.original,
                Direction::Closed,
            ) ==> r == Direction::<Seq<u8>>::Closed && t2.read_original(size).0
                == Direction::<Seq<u8>>::Closed
        }),
        ({
            let t = s.push_modified(Direction::Closed);
            let (r, t2) = t.read_modified(size);
            consumed(s.modified, s.write_position) == stream_bytes(s.modified).len() && push_allowed(
                s.modified,
                Direction::Closed,
            ) ==> r == Direction::<Seq<u8>>::Closed && t2.read_modified(size).0
                == Direction::<Seq<u8>>::Closed
        }),
{
    if consumed(s.original, s.read_position) == stream_bytes(s.original).len() && push_allowed(
        s.original,
        Direction::Closed,
    ) {
        lemma_closed_read(s.original, s.read_position, size);
    }
    if consumed(s.modified, s.write_position) == stream_bytes(s.modified).len() && push_allowed(
        s.modified,
        Direction::Closed,
    ) {
        lemma_closed_read(s.modified, s.write_position, size);
    }
}

/// A script's send names exactly the bytes it was given: with the outgoing
/// code 1 they travel out, with the incoming code -1 they travel in, and any
/// other code names no piece.
pub proof fn lemma_sent_piece_codes(direction: i8, data: Seq<u8>)
    ensures
        OUTGOING == 1 && INCOMING == -1,
        direction == 1 ==> sent_piece(direction, data) == Some(Direction::Out(data)),
        direction == -1 ==> sent_piece(direction, data) == Some(Direction::In(data)),
        direction != 1 && direction != -1 ==> sent_piece(direction, data) is None,
{
}

/// Traffic read from the server travels out and traffic read from the client
/// travels in, carrying exactly the bytes read, whatever their number.
pub proof fn lemma_read_item_sides(bytes: Seq<u8>)
    ensures
        read_item(Side::Server, bytes) == Direction::Out(bytes),
        read_item(Side::Client, bytes) == Direction::In(bytes),
{
}

/// The bookkeeping pair of the last piece of the received traffic after
/// `push_original(v)` (and likewise of the rewritten traffic after
/// `push_modified(v)`): the first piece sets the count to 1 and keeps the
/// index; a piece joined to the last one adds its byte count to the count;
/// an appended piece moves the index on by one and sets the count to its
/// byte count.
pub proof fn lemma_push_bookkeeping(s: ConnectionDataView, v: Direction<Seq<u8>>)
    ensures
        ({
            let c = s.original;
            let l = s.original_last_position;
            let t = s.push_original(v).original_last_position;
            &&& c.len() == 0 ==> t == (l.0, 1int)
            &&& c.len() > 0 && ((c.last() is In && v is In) || (c.last() is Out && v is Out))
                && l.1 + chunk_bytes(v).len() <= usize::MAX ==> t == (l.0, l.1 + chunk_bytes(v).len())
            &&& c.len() > 0 && !(c.last() is In && v is In) && !(c.last() is Out && v is Out)
                ==> t == (l.0 + 1, chunk_bytes(v).len() as int)
        }),
        ({
            let c = s.modified;
            let l = s.modified_last_position;
            let t = s.push_modified(v).modified_last_position;
            &&& c.len() == 0 ==> t == (l.0, 1int)
            &&& c.len() > 0 && ((c.last() is In && v is In) || (c.last() is Out && v is Out))
                && l.1 + chunk_bytes(v).len() <= usize::MAX ==> t == (l.0, l.1 + chunk_bytes(v).len())
            &&& c.len() > 0 && !(c.last() is In && v is In) && !(c.last() is Out && v is Out)
                ==> t == (l.0 + 1, chunk_bytes(v).len() as int)
        }),
{
}

} // verus!
