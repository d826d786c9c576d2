use vstd::prelude::*;

use crate::direction::{carries_data, chunk_bytes, same_way, with_bytes, Direction};

verus! {

/// The record of one proxied connection as a sequence of pieces of
/// traffic, in the order they arrived.
pub type Chunks = Seq<Direction<Seq<u8>>>;

/// The abstract content of a `Vec` of pieces.
pub open spec fn chunks_of(v: Seq<Direction<Vec<u8>>>) -> Chunks {
    v.map_values(|d: Direction<Vec<u8>>| d@)
}

/// A pair of machine positions, read as integers.
pub open spec fn position_of(p: (usize, usize)) -> (int, int) {
    (p.0 as int, p.1 as int)
}

/// Every piece but the last carries data (a marker can only end a record),
/// and no two neighbouring pieces travel the same way.
pub open spec fn chunks_wf(c: Chunks) -> bool {
    &&& forall|i: int| 0 <= i < c.len() - 1 ==> carries_data(#[trigger] c[i])
    &&& forall|i: int, j: int|
        0 <= i && j == i + 1 && j < c.len() ==> !same_way(#[trigger] c[i], #[trigger] c[j])
}

/// A read cursor `(piece, offset)` points into the record: at the start
/// of an empty record, or at an offset within the bytes of some piece.
pub open spec fn cursor_wf(c: Chunks, pos: (int, int)) -> bool {
    if c.len() == 0 {
        pos.0 == 0 && pos.1 == 0
    } else {
        &&& 0 <= pos.0 < c.len()
        &&& 0 <= pos.1 <= chunk_bytes(c[pos.0]).len()
    }
}

/// The bookkeeping pair of the last piece: its index, and a count that is
/// at most one more than the bytes of that piece.
pub open spec fn last_wf(c: Chunks, last: (int, int)) -> bool {
    if c.len() == 0 {
        last.0 == 0 && last.1 == 0
    } else {
        &&& last.0 == c.len() - 1
        &&& 0 <= last.1 <= chunk_bytes(c.last()).len() + 1
    }
}

/// When `v` may be added to the record `c`: to an empty record anything
/// may be added; otherwise the record must end with a piece that carries
/// data, and `v` must not be `NotReady`.
pub open spec fn push_allowed(c: Chunks, v: Direction<Seq<u8>>) -> bool {
    c.len() == 0 || (carries_data(c.last()) && !(v is NotReady))
}

/// The record after adding `v`: the first piece starts the record; a piece
/// that travelled the same way as the last one is joined to it; any other
/// piece (or the `Closed` marker) is appended.
pub open spec fn pushed(c: Chunks, v: Direction<Seq<u8>>) -> Chunks {
    if c.len() == 0 {
        seq![v]
    } else if same_way(c.last(), v) {
        c.update(c.len() - 1, with_bytes(v, chunk_bytes(c.last()) + chunk_bytes(v)))
    } else {
        c.push(v)
    }
}

/// The value that a wrapping `usize` addition gives for a sum `x` of two
/// `usize` values: past `usize::MAX` it starts again from zero.
pub open spec fn wrapped_count(x: int) -> int {
    if x > usize::MAX {
        x - (usize::MAX + 1)
    } else {
        x
    }
}

/// The bookkeeping pair after adding `v` to `c`. Starting a record sets the
/// count to 1 (the number of pieces then held); joining adds the new bytes
/// (a sum that only wraps when the joined piece holds `usize::MAX` bytes
/// and the count is one ahead of them); appending moves the index on and
/// sets the count to the new piece's length.
pub open spec fn pushed_last(c: Chunks, last: (int, int), v: Direction<Seq<u8>>) -> (int, int) {
    if c.len() == 0 {
        (last.0, 1)
    } else if same_way(c.last(), v) {
        (last.0, wrapped_count(last.1 + chunk_bytes(v).len()))
    } else {
        (last.0 + 1, chunk_bytes(v).len() as int)
    }
}

/// What one read of at most `size` bytes at cursor `pos` hands out, and where
/// the cursor stands afterwards. Pieces whose bytes are all read are passed
/// over while a later piece exists; a piece with unread bytes gives up to
/// `size` of them; a `Closed` piece gives `Closed` (the cursor stays on it);
/// otherwise nothing is available yet.
pub open spec fn next_read(c: Chunks, pos: (int, int), size: int) -> (Direction<Seq<u8>>, (int, int))
    decreases c.len() - pos.0,
{
    if pos.0 < 0 || pos.0 >= c.len() {
        (Direction::NotReady, pos)
    } else {
        let piece = c[pos.0];
        if carries_data(piece) {
            let b = chunk_bytes(piece);
            if b.len() == pos.1 {
                if pos.0 + 1 < c.len() {
                    next_read(c, (pos.0 + 1, 0), size)
                } else {
                    (Direction::NotReady, pos)
                }
            } else {
                let end = if b.len() - pos.1 <= size {
                    b.len() as int
                } else {
                    pos.1 + size
                };
                (with_bytes(piece, b.subrange(pos.1, end)), (pos.0, end))
            }
        } else if piece is Closed {
            (Direction::Closed, (pos.0, 0))
        } else {
            (Direction::NotReady, pos)
        }
    }
}

/// The offset at which a read from cursor `pos` starts in piece `j`: the
/// cursor's offset in its own piece, the start of any later piece.
pub open spec fn start_offset(pos: (int, int), j: int) -> int {
    if j == pos.0 {
        pos.1
    } else {
        0
    }
}

/// A read from cursor `pos` stops at piece `j` when that piece is a marker or
/// still has unread bytes.
pub open spec fn stops_at(c: Chunks, pos: (int, int), j: int) -> bool {
    !carries_data(c[j]) || start_offset(pos, j) < chunk_bytes(c[j]).len()
}

/// Piece `j` is the first piece at or after the cursor at which a read stops.
pub open spec fn first_stop(c: Chunks, pos: (int, int), j: int) -> bool {
    &&& pos.0 <= j < c.len()
    &&& stops_at(c, pos, j)
    &&& forall|k: int| pos.0 <= k < j ==> !stops_at(c, pos, k)
}

/// What a read of at most `size` bytes gives when it stops at piece `j`: the
/// next `min(size, unread)` bytes of a piece that carries data, `Closed` at
/// the end marker, `NotReady` otherwise; and the cursor afterwards.
pub open spec fn read_at(c: Chunks, pos: (int, int), j: int, size: int) -> (Direction<Seq<u8>>, (int, int)) {
    let o = start_offset(pos, j);
    let piece = c[j];
    let b = chunk_bytes(piece);
    if carries_data(piece) {
        let n = if b.len() - o <= size {
            b.len() - o
        } else {
            size
        };
        (with_bytes(piece, b.subrange(o, o + n)), (j, o + n))
    } else if piece is Closed {
        (Direction::Closed, (j, 0))
    } else {
        (Direction::NotReady, (j, o))
    }
}

/// A read described directly: it stops at the first piece at or after the
/// cursor that is a marker or has unread bytes; when there is none, nothing
/// is available and the cursor rests at the end of the last piece.
pub open spec fn read_directly(c: Chunks, pos: (int, int), size: int) -> (Direction<Seq<u8>>, (int, int)) {
    if exists|j: int| first_stop(c, pos, j) {
        read_at(c, pos, choose|j: int| first_stop(c, pos, j), size)
    } else if c.len() == 0 {
        (Direction::NotReady, pos)
    } else {
        (Direction::NotReady, (c.len() - 1, chunk_bytes(c.last()).len() as int))
    }
}

/// All bytes of a record, in order, whatever way they travelled.
pub open spec fn stream_bytes(c: Chunks) -> Seq<u8>
    decreases c.len(),
{
    if c.len() == 0 {
        Seq::empty()
    } else {
        stream_bytes(c.drop_last()) + chunk_bytes(c.last())
    }
}

/// How many bytes of the record lie before the cursor `pos`.
pub open spec fn consumed(c: Chunks, pos: (int, int)) -> int {
    stream_bytes(c.take(pos.0)).len() + pos.1
}

/// The items of a piece: each of its bytes tagged with the way it
/// travelled, or the marker as a single item.
pub open spec fn tagged(v: Direction<Seq<u8>>) -> Seq<Direction<u8>> {
    match v {
        Direction::Out(d) => d.map_values(|x: u8| Direction::Out(x)),
        Direction::In(d) => d.map_values(|x: u8| Direction::In(x)),
        Direction::NotReady => seq![Direction::NotReady],
        Direction::Closed => seq![Direction::Closed],
    }
}

/// The items that a read handing out `v` delivers: its tagged bytes; a
/// marker delivers none.
pub open spec fn data_items(v: Direction<Seq<u8>>) -> Seq<Direction<u8>> {
    if carries_data(v) {
        tagged(v)
    } else {
        Seq::empty()
    }
}

/// All items of a record, in order.
pub open spec fn tagged_stream(c: Chunks) -> Seq<Direction<u8>>
    decreases c.len(),
{
    if c.len() == 0 {
        Seq::empty()
    } else {
        tagged_stream(c.drop_last()) + tagged(c.last())
    }
}

/// The items that lie before the cursor `pos`: those the reads have handed out.
pub open spec fn items_read(c: Chunks, pos: (int, int)) -> Seq<Direction<u8>> {
    if 0 <= pos.0 < c.len() {
        tagged_stream(c.take(pos.0)) + data_items(c[pos.0]).take(pos.1)
    } else {
        Seq::empty()
    }
}

/// Every piece of the record carries data.
pub open spec fn all_data(c: Chunks) -> bool {
    forall|i: int| 0 <= i < c.len() ==> carries_data(#[trigger] c[i])
}

/// The abstract state of a connection record: the traffic as received
/// (`original`) and as rewritten by the script (`modified`), with the
/// bookkeeping pair of the last piece and the read cursor of each.
pub struct ConnectionDataView {
    pub original: Chunks,
    pub modified: Chunks,
    pub original_last_position: (int, int),
    pub read_position: (int, int),
    pub modified_last_position: (int, int),
    pub write_position: (int, int),
}

impl ConnectionDataView {
    /// The state of a fresh record.
    pub open spec fn empty() -> Self {
        ConnectionDataView {
            original: Seq::empty(),
            modified: Seq::empty(),
            original_last_position: (0, 0),
            read_position: (0, 0),
            modified_last_position: (0, 0),
            write_position: (0, 0),
        }
    }

    /// The invariant that every operation keeps.
    pub open spec fn wf(self) -> bool {
        &&& chunks_wf(self.original)
        &&& chunks_wf(self.modified)
        &&& last_wf(self.original, self.original_last_position)
        &&& last_wf(self.modified, self.modified_last_position)
        &&& cursor_wf(self.original, self.read_position)
        &&& cursor_wf(self.modified, self.write_position)
    }

    /// The state after adding `v` to the received traffic.
    pub open spec fn push_original(self, v: Direction<Seq<u8>>) -> Self {
        ConnectionDataView {
            original: pushed(self.original, v),
            original_last_position: pushed_last(self.original, self.original_last_position, v),
            ..self
        }
    }

    /// The state after adding `v` to the rewritten traffic.
    pub open spec fn push_modified(self, v: Direction<Seq<u8>>) -> Self {
        ConnectionDataView {
            modified: pushed(self.modified, v),
            modified_last_position: pushed_last(self.modified, self.modified_last_position, v),
            ..self
        }
    }

    /// What a read of at most `size` bytes of the received traffic gives,
    /// and the state after it.
    pub open spec fn read_original(self, size: int) -> (Direction<Seq<u8>>, Self) {
        let (r, pos) = next_read(self.original, self.read_position, size);
        (r, ConnectionDataView { read_position: pos, ..self })
    }

    /// What a read of at most `size` bytes of the rewritten traffic gives,
    /// and the state after it.
    pub open spec fn read_modified(self, size: int) -> (Direction<Seq<u8>>, Self) {
        let (r, pos) = next_read(self.modified, self.write_position, size);
        (r, ConnectionDataView { write_position: pos, ..self })
    }
}

/// The record of one proxied connection: the traffic received on both
/// sockets, the traffic the script sent on, and a read cursor into each.
#[derive(Debug)]
pub struct ConnectionData {
    original_data: Vec<Direction<Vec<u8>>>,
    modified_data: Vec<Direction<Vec<u8>>>,
    original_last_position: (usize, usize),
    read_position: (usize, usize),
    modified_last_position: (usize, usize),
    write_position: (usize, usize),
}

impl View for ConnectionData {
    type V = ConnectionDataView;

    closed spec fn view(&self) -> ConnectionDataView {
        ConnectionDataView {
            original: chunks_of(self.original_data@),
            modified: chunks_of(self.modified_data@),
            original_last_position: position_of(self.original_last_position),
            read_position: position_of(self.read_position),
            modified_last_position: position_of(self.modified_last_position),
            write_position: position_of(self.write_position),
        }
    }
}

/// The bytes of `d` from `from` up to `to`.
pub(crate) fn copy_range(d: &Vec<u8>, from: usize, to: usize) -> (r: Vec<u8>)
    requires
        from <= to <= d@.len(),
    ensures
        r@ == d@.subrange(from as int, to as int),
{
    let mut r: Vec<u8> = Vec::new();
    let mut k: usize = from;
    while k < to
        invariant
            from <= k <= to,
            to <= d@.len(),
            r@ == d@.subrange(from as int, k as int),
        decreases to - k,
    {
        r.push(d[k]);
        k = k + 1;
    }
    r
}

/// Whether `a` and `b` both carry data and travelled the same way.
fn same_way_exec(a: &Direction<Vec<u8>>, b: &Direction<Vec<u8>>) -> (r: bool)
    ensures
        r == same_way(a@, b@),
{
    match (a, b) {
        (Direction::In(_), Direction::In(_)) => true,
        (Direction::Out(_), Direction::Out(_)) => true,
        _ => false,
    }
}

/// Adds `value` to the record `data`, keeping its bookkeeping pair `last`.
fn push_chunk(data: &mut Vec<Direction<Vec<u8>>>, last: &mut (usize, usize), value: Direction<Vec<u8>>)
    requires
        chunks_wf(chunks_of(old(data)@)),
        last_wf(chunks_of(old(data)@), position_of(*old(last))),
        push_allowed(chunks_of(old(data)@), value@),
    ensures
        chunks_of(final(data)@) == pushed(chunks_of(old(data)@), value@),
        position_of(*final(last)) == pushed_last(
            chunks_of(old(data)@),
            position_of(*old(last)),
            value@,
        ),
{
    let ghost c = chunks_of(data@);
    let ghost v = value@;
    let n = data.len();
    if n == 0 {
        data.push(value);
        last.1 = data.len();
        proof {
            assert(chunks_of(data@) =~= seq![v]);
        }
        return;
    }
    assert(c.last() == data@[n - 1]@);
    if same_way_exec(&data[n - 1], &value) {
        let prev = data.pop();
        assert(data@ =~= old(data)@.drop_last());
        // The count runs at most one ahead of the bytes of the last piece, so
        // the sum below can only pass `usize::MAX` when the joined piece
        // holds `usize::MAX` bytes; it then wraps as a release build does.
        match (prev, value) {
            (Some(Direction::In(mut l)), Direction::In(mut d)) => {
                let added = d.len();
                l.append(&mut d);
                last.1 = last.1.wrapping_add(added);
                data.push(Direction::In(l));
            },
            (Some(Direction::Out(mut l)), Direction::Out(mut d)) => {
                let added = d.len();
                l.append(&mut d);
                last.1 = last.1.wrapping_add(added);
                data.push(Direction::Out(l));
            },
            _ => {
                assert(false);
            },
        }
        proof {
            assert(chunks_of(data@) =~= c.update(
                c.len() - 1,
                with_bytes(v, chunk_bytes(c.last()) + chunk_bytes(v)),
            ));
        }
    } else {
        let len = match &value {
            Direction::In(d) => d.len(),
            Direction::Out(d) => d.len(),
            _ => 0,
        };
        last.0 = last.0 + 1;
        last.1 = len;
        data.push(value);
        proof {
            assert(chunks_of(data@) =~= c.push(v));
        }
    }
}

/// Hands out what one read of at most `size` bytes at cursor `pos` gives,
/// and moves the cursor.
fn read_chunk(data: &Vec<Direction<Vec<u8>>>, pos: &mut (usize, usize), size: usize) -> (r: Direction<Vec<u8>>)
    requires
        cursor_wf(chunks_of(data@), position_of(*old(pos))),
    ensures
        (r@, position_of(*final(pos))) == next_read(
            chunks_of(data@),
            position_of(*old(pos)),
            size as int,
        ),
{
    let ghost c = chunks_of(data@);
    let ghost start = position_of(*pos);
    loop
        invariant
            c == chunks_of(data@),
            cursor_wf(c, position_of(*pos)),
            start == position_of(*old(pos)),
            next_read(c, position_of(*pos), size as int) == next_read(c, start, size as int),
        decreases data@.len() - pos.0,
    {
        let i = pos.0;
        if i >= data.len() {
            return Direction::NotReady;
        }
        assert(c[i as int] == data@[i as int]@);
        let (incoming, d) = match &data[i] {
            Direction::In(d) => (true, d),
            Direction::Out(d) => (false, d),
            Direction::Closed => {
                pos.1 = 0;
                return Direction::Closed;
            },
            Direction::NotReady => {
                return Direction::NotReady;
            },
        };
        let o = pos.1;
        if d.len() == o {
            if i + 1 < data.len() {
                pos.0 = i + 1;
                pos.1 = 0;
            } else {
                return Direction::NotReady;
            }
        } else {
            let end = if d.len() - o <= size {
                d.len()
            } else {
                o + size
            };
            let piece = copy_range(d, o, end);
            pos.1 = end;
            if incoming {
                return Direction::In(piece);
            } else {
                return Direction::Out(piece);
            }
        }
    }
}

impl ConnectionData {
    /// The record's invariant: its abstract state is well formed.
    #[verifier::type_invariant]
    pub(crate) open spec fn inv(self) -> bool {
        self@.wf()
    }

    /// An empty record with both cursors at the start.
    pub fn new() -> (r: ConnectionData)
        ensures
            r@ == ConnectionDataView::empty(),
            r@.wf(),
    {
        proof {
            assert(chunks_of(Seq::<Direction<Vec<u8>>>::empty()) =~= Seq::empty());
        }
        ConnectionData {
            original_data: Vec::new(),
            modified_data: Vec::new(),
            original_last_position: (0, 0),
            read_position: (0, 0),
            modified_last_position: (0, 0),
            write_position: (0, 0),
        }
    }

    /// Whether `push_modified(value)` may be called now.
    pub fn can_push_modified(&self, value: &Direction<Vec<u8>>) -> (r: bool)
        ensures
            r == push_allowed(self@.modified, value@),
            self@.wf(),
    {
        proof {
            use_type_invariant(self);
        }
        can_push(&self.modified_data, value)
    }

    /// Whether `push_original(value)` may be called now.
    pub fn can_push_original(&self, value: &Direction<Vec<u8>>) -> (r: bool)
        ensures
            r == push_allowed(self@.original, value@),
            self@.wf(),
    {
        proof {
            use_type_invariant(self);
        }
        can_push(&self.original_data, value)
    }

    /// Adds `value` to the traffic rewritten by the script.
    pub fn push_modified(&mut self, value: Direction<Vec<u8>>)
        requires
            push_allowed(old(self)@.modified, value@),
        ensures
            old(self)@.wf(),
            final(self)@ == old(self)@.push_modified(value@),
            final(self)@.wf(),
    {
        proof {
            use_type_invariant(&*self);
            crate::laws::lemma_push_keeps_wf(old(self)@.modified, value@);
            crate::laws::lemma_push_keeps_last(old(self)@.modified, old(self)@.modified_last_position, value@);
            crate::laws::lemma_push_keeps_cursor(old(self)@.modified, old(self)@.write_position, value@);
        }
        let mut taken = ConnectionData::new();
        std::mem::swap(self, &mut taken);
        let ConnectionData {
            original_data,
            mut modified_data,
            original_last_position,
            read_position,
            mut modified_last_position,
            write_position,
        } = taken;
        push_chunk(&mut modified_data, &mut modified_last_position, value);
        *self = ConnectionData {
            original_data,
            modified_data,
            original_last_position,
            read_position,
            modified_last_position,
            write_position,
        };
    }

    /// Adds `value` to the traffic received from the sockets.
    pub fn push_original(&mut self, value: Direction<Vec<u8>>)
        requires
            push_allowed(old(self)@.original, value@),
        ensures
            old(self)@.wf(),
            final(self)@ == old(self)@.push_original(value@),
            final(self)@.wf(),
    {
        proof {
            use_type_invariant(&*self);
            crate::laws::lemma_push_keeps_wf(old(self)@.original, value@);
            crate::laws::lemma_push_keeps_last(old(self)@.original, old(self)@.original_last_position, value@);
            crate::laws::lemma_push_keeps_cursor(old(self)@.original, old(self)@.read_position, value@);
        }
        let mut taken = ConnectionData::new();
        std::mem::swap(self, &mut taken);
        let ConnectionData {
            mut original_data,
            modified_data,
            mut original_last_position,
            read_position,
            modified_last_position,
            write_position,
        } = taken;
        push_chunk(&mut original_data, &mut original_last_position, value);
        *self = ConnectionData {
            original_data,
            modified_data,
            original_last_position,
            read_position,
            modified_last_position,
            write_position,
        };
    }

    /// Reads at most `size` bytes of the received traffic.
    pub fn get(&mut self, size: usize) -> (r: Direction<Vec<u8>>)
        ensures
            old(self)@.wf(),
            (r@, final(self)@) == old(self)@.read_original(size as int),
            final(self)@.wf(),
    {
        proof {
            use_type_invariant(&*self);
            crate::laws::lemma_read_keeps_cursor(old(self)@.original, old(self)@.read_position, size as int);
        }
        let mut taken = ConnectionData::new();
        std::mem::swap(self, &mut taken);
        let ConnectionData {
            original_data,
            modified_data,
            original_last_position,
            mut read_position,
            modified_last_position,
            write_position,
        } = taken;
        let r = read_chunk(&original_data, &mut read_position, size);
        *self = ConnectionData {
            original_data,
            modified_data,
            original_last_position,
            read_position,
            modified_last_position,
            write_position,
        };
        r
    }

    /// The index of the piece under the read cursor of the received traffic.
    pub fn get_no(&mut self) -> (r: usize)
        ensures
            r as int == old(self)@.read_position.0,
            final(self)@ == old(self)@,
            final(self)@.wf(),
    {
        proof {
            use_type_invariant(&*self);
        }
        self.read_position.0
    }

    /// Reads at most `size` bytes of the rewritten traffic.
    pub fn _get_modified(&mut self, size: usize) -> (r: Direction<Vec<u8>>)
        ensures
            old(self)@.wf(),
            (r@, final(self)@) == old(self)@.read_modified(size as int),
            final(self)@.wf(),
    {
        proof {
            use_type_invariant(&*self);
            crate::laws::lemma_read_keeps_cursor(old(self)@.modified, old(self)@.write_position, size as int);
        }
        let mut taken = ConnectionData::new();
        std::mem::swap(self, &mut taken);
        let ConnectionData {
            original_data,
            modified_data,
            original_last_position,
            read_position,
            modified_last_position,
            mut write_position,
        } = taken;
        let r = read_chunk(&modified_data, &mut write_position, size);
        *self = ConnectionData {
            original_data,
            modified_data,
            original_last_position,
            read_position,
            modified_last_position,
            write_position,
        };
        r
    }
}

/// Whether `value` may be added to the record `data`.
fn can_push(data: &Vec<Direction<Vec<u8>>>, value: &Direction<Vec<u8>>) -> (r: bool)
    ensures
        r == push_allowed(chunks_of(data@), value@),
{
    let n = data.len();
    if n == 0 {
        return true;
    }
    let ghost c = chunks_of(data@);
    assert(c.last() == data@[n - 1]@);
    match &data[n - 1] {
        Direction::In(_) | Direction::Out(_) => !matches!(value, Direction::NotReady),
        _ => false,
    }
}

} // verus!
