//! The download coordinator's decisions: which piece a peer works on next, what goes back
//! to the queue, and where a verified piece lands in the output.
use vstd::prelude::*;

use crate::digest::{sha1_digest, sha1_of};
use crate::fetch::{piece_len, piece_size};
use crate::peer::{bit_set, Bitfield, PeerError};
use crate::torrent_file::{bytes_equal, piece_count, Info, Piece as PieceHash};

verus! {

// ---------------------------------------------------------------------------
// Piece ranges
proof fn lemma_piece_in_file(i: int, pl: int, len: int)
    requires
        pl > 0,
        len >= 0,
        0 <= i < piece_count(len as nat, pl as nat),
    ensures
        0 <= i * pl < len,
        0 < piece_size(i, pl, len) <= pl,
        i * pl + piece_size(i, pl, len) <= len,
{
    let n = (len + pl - 1) / pl;
    vstd::arithmetic::div_mod::lemma_fundamental_div_mod(len + pl - 1, pl);
    let r = (len + pl - 1) % pl;
    assert(0 <= r < pl) by {
        vstd::arithmetic::div_mod::lemma_mod_bound(len + pl - 1, pl);
    }
    assert(i * pl <= (n - 1) * pl) by (nonlinear_arith)
        requires
            i <= n - 1,
            pl > 0,
    ;
    assert((n - 1) * pl == n * pl - pl) by (nonlinear_arith);
    assert(pl * n == n * pl) by (nonlinear_arith);
    assert(0 <= i * pl) by (nonlinear_arith)
        requires
            i >= 0,
            pl > 0,
    ;
}

proof fn lemma_pieces_disjoint(i: int, j: int, pl: int, len: int)
    requires
        pl > 0,
        0 <= i < j,
    ensures
        i * pl + piece_size(i, pl, len) <= j * pl,
{
    assert((i + 1) * pl <= j * pl) by (nonlinear_arith)
        requires
            i + 1 <= j,
            pl > 0,
    ;
    assert((i + 1) * pl == i * pl + pl) by (nonlinear_arith);
}

proof fn lemma_locate(p: int, pl: int, len: int)
    requires
        pl > 0,
        0 <= p < len,
    ensures
        0 <= p / pl < piece_count(len as nat, pl as nat),
        (p / pl) * pl <= p < (p / pl) * pl + piece_size(p / pl, pl, len),
{
    let i = p / pl;
    vstd::arithmetic::div_mod::lemma_fundamental_div_mod(p, pl);
    vstd::arithmetic::div_mod::lemma_mod_bound(p, pl);
    assert(pl * i == i * pl) by (nonlinear_arith);
    assert(i >= 0) by {
        vstd::arithmetic::div_mod::lemma_div_pos_is_pos(p, pl);
    }
    // i < ceil(len / pl)
    let n = (len + pl - 1) / pl;
    vstd::arithmetic::div_mod::lemma_fundamental_div_mod(len + pl - 1, pl);
    vstd::arithmetic::div_mod::lemma_mod_bound(len + pl - 1, pl);
    assert(pl * n == n * pl) by (nonlinear_arith);
    assert(i < n) by {
        if i >= n {
            assert(i * pl >= n * pl) by (nonlinear_arith)
                requires
                    i >= n,
                    pl > 0,
            ;
        }
    }
}

// ---------------------------------------------------------------------------
// The work queue
/// Every piece of the torrent, in order, with its expected hash.
pub fn work_queue(info: &Info) -> (r: Vec<(usize, PieceHash)>)
    ensures
        r@.len() == info.pieces@.len(),
        forall|i: int| 0 <= i < r@.len() ==> #[trigger] r@[i] == (i as usize, info.pieces@[i]),
{
    let mut r: Vec<(usize, PieceHash)> = Vec::new();
    let mut i: usize = 0;
    while i < info.pieces.len()
        invariant
            i <= info.pieces@.len(),
            r@.len() == i,
            forall|k: int| 0 <= k < i ==> #[trigger] r@[k] == (k as usize, info.pieces@[k]),
        decreases info.pieces@.len() - i,
    {
        r.push((i, info.pieces[i]));
        i = i + 1;
    }
    r
}

/// Takes out of the queue the first piece that the peer holds.
pub fn claim_piece(queue: &mut Vec<(usize, PieceHash)>, bitfield: &Bitfield) -> (r: Option<
    (usize, PieceHash),
>)
    ensures
        r is None <==> forall|j: int|
            0 <= j < old(queue)@.len() ==> !bit_set(bitfield.0@, #[trigger] old(queue)@[j].0 as int),
        r is None ==> final(queue)@ == old(queue)@,
        r matches Some(item) ==> exists|k: int|
            {
                &&& 0 <= k < old(queue)@.len()
                &&& forall|j: int|
                    0 <= j < k ==> !bit_set(bitfield.0@, #[trigger] old(queue)@[j].0 as int)
                &&& bit_set(bitfield.0@, old(queue)@[k].0 as int)
                &&& item == old(queue)@[k]
                &&& final(queue)@ == old(queue)@.remove(k)
            },
{
    let mut k: usize = 0;
    while k < queue.len()
        invariant
            k <= queue@.len(),
            queue@ == old(queue)@,
            forall|j: int| 0 <= j < k ==> !bit_set(bitfield.0@, #[trigger] queue@[j].0 as int),
        decreases queue@.len() - k,
    {
        if bitfield.has_piece(queue[k].0) {
            let item = queue.remove(k);
            return Some(item);
        }
        k = k + 1;
    }
    None
}

/// Puts a claimed piece back, for another peer to fetch.
pub fn requeue(queue: &mut Vec<(usize, PieceHash)>, item: (usize, PieceHash))
    ensures
        final(queue)@ == old(queue)@.push(item),
{
    queue.push(item);
}

// ---------------------------------------------------------------------------
// The output
/// The file being put together: the output buffer, the expected hash of each piece, which
/// pieces have landed, and what each landed piece holds.
pub struct FileAssembly {
    pub output: Vec<u8>,
    pub piece_length: usize,
    pub hashes: Vec<PieceHash>,
    pub done: Vec<bool>,
    pub contents: Ghost<Seq<Seq<u8>>>,
}

impl FileAssembly {
    /// Where piece `i` starts in the file.
    pub open spec fn start(&self, i: int) -> int {
        i * self.piece_length
    }

    /// The size of piece `i`.
    pub open spec fn size(&self, i: int) -> int {
        piece_size(i, self.piece_length as int, self.output@.len() as int)
    }

    /// The bytes of the output where piece `i` goes.
    pub open spec fn slot(&self, i: int) -> Seq<u8> {
        self.output@.subrange(self.start(i), self.start(i) + self.size(i))
    }

    pub open spec fn wf(&self) -> bool {
        &&& self.piece_length > 0
        &&& self.hashes@.len() == piece_count(self.output@.len(), self.piece_length as nat)
        &&& self.done@.len() == self.hashes@.len()
        &&& self.contents@.len() == self.hashes@.len()
        &&& forall|i: int|
            0 <= i < self.done@.len() && #[trigger] self.done@[i] ==> {
                &&& self.slot(i) == self.contents@[i]
                &&& sha1_of(self.contents@[i]) == self.hashes@[i].0@
            }
    }

    pub open spec fn complete(&self) -> bool {
        forall|i: int| 0 <= i < self.done@.len() ==> #[trigger] self.done@[i]
    }

    /// An empty output of the file's length, with no piece landed yet.
    pub fn new(info: &Info) -> (r: Self)
        requires
            info.wf(),
        ensures
            r.wf(),
            r.output@.len() == info.length,
            r.piece_length == info.piece_length,
            r.hashes@ == info.pieces@,
            forall|i: int| 0 <= i < r.done@.len() ==> !#[trigger] r.done@[i],
    {
        let mut output: Vec<u8> = Vec::new();
        let mut k: usize = 0;
        while k < info.length
            invariant
                k <= info.length,
                output@.len() == k,
            decreases info.length - k,
        {
            output.push(0u8);
            k = k + 1;
        }
        let mut hashes: Vec<PieceHash> = Vec::new();
        let mut done: Vec<bool> = Vec::new();
        let mut i: usize = 0;
        while i < info.pieces.len()
            invariant
                i <= info.pieces@.len(),
                hashes@ == info.pieces@.subrange(0, i as int),
                done@.len() == i,
                forall|j: int| 0 <= j < i ==> !#[trigger] done@[j],
            decreases info.pieces@.len() - i,
        {
            hashes.push(info.pieces[i]);
            done.push(false);
            i = i + 1;
            assert(hashes@ =~= info.pieces@.subrange(0, i as int));
        }
        assert(hashes@ =~= info.pieces@);
        FileAssembly {
            output,
            piece_length: info.piece_length,
            hashes,
            done,
            contents: Ghost(Seq::new(info.pieces@.len(), |i: int| Seq::<u8>::empty())),
        }
    }

    /// Writes a verified piece at its place in the output. No other piece's bytes change.
    pub fn install(&mut self, index: usize, data: &[u8])
        requires
            old(self).wf(),
            index < old(self).hashes@.len(),
            data@.len() == old(self).size(index as int),
            sha1_of(data@) == old(self).hashes@[index as int].0@,
        ensures
            final(self).wf(),
            final(self).output@.len() == old(self).output@.len(),
            final(self).piece_length == old(self).piece_length,
            final(self).hashes@ == old(self).hashes@,
            final(self).done@ == old(self).done@.update(index as int, true),
            final(self).contents@ == old(self).contents@.update(index as int, data@),
            final(self).slot(index as int) == data@,
            forall|q: int|
                0 <= q < old(self).output@.len() && !(old(self).start(index as int) <= q < old(
                    self,
                ).start(index as int) + data@.len()) ==> #[trigger] final(self).output@[q] == old(
                    self,
                ).output@[q],
    {
        let ghost pl = self.piece_length as int;
        let ghost len = self.output@.len() as int;
        let _ = self.output.len();
        proof {
            lemma_piece_in_file(index as int, pl, len);
        }
        let start = index * self.piece_length;
        let mut k: usize = 0;
        while k < data.len()
            invariant
                old(self).wf(),
                start == index * pl,
                start + data@.len() <= len,
                len <= usize::MAX,
                old(self).output@.len() == len,
                k <= data@.len(),
                self.output@.len() == len,
                self.piece_length == old(self).piece_length,
                self.hashes@ == old(self).hashes@,
                self.done@ == old(self).done@,
                self.contents@ == old(self).contents@,
                forall|q: int|
                    0 <= q < len && !(start <= q < start + k) ==> #[trigger] self.output@[q]
                        == old(self).output@[q],
                forall|q: int| start <= q < start + k ==> #[trigger] self.output@[q] == data@[q - start],
            decreases data@.len() - k,
        {
            self.output[start + k] = data[k];
            k = k + 1;
        }
        self.done[index] = true;
        self.contents = Ghost(self.contents@.update(index as int, data@));
        assert(self.slot(index as int) =~= data@);
        assert forall|j: int| 0 <= j < self.done@.len() && #[trigger] self.done@[j] implies {
            &&& self.slot(j) == self.contents@[j]
            &&& sha1_of(self.contents@[j]) == self.hashes@[j].0@
        } by {
            if j != index {
                assert(old(self).done@[j]);
                lemma_piece_in_file(j, pl, len);
                if j < index {
                    lemma_pieces_disjoint(j, index as int, pl, len);
                } else {
                    lemma_pieces_disjoint(index as int, j, pl, len);
                }
                assert(self.slot(j) =~= old(self).slot(j));
            }
        }
    }

    /// Writes a piece at its place in the output after checking it: the index must be a
    /// piece of the file, the bytes must have its size, and their SHA-1 must be its hash.
    /// Otherwise nothing changes.
    pub fn land_piece(&mut self, index: usize, data: &[u8]) -> (r: Result<(), PeerError>)
        requires
            old(self).wf(),
        ensures
            final(self).wf(),
            r is Ok <==> {
                &&& index < old(self).hashes@.len()
                &&& data@.len() == old(self).size(index as int)
                &&& sha1_of(data@) == old(self).hashes@[index as int].0@
            },
            r is Ok ==> {
                &&& final(self).done@ == old(self).done@.update(index as int, true)
                &&& final(self).contents@ == old(self).contents@.update(index as int, data@)
                &&& final(self).slot(index as int) == data@
                &&& forall|q: int|
                    0 <= q < old(self).output@.len() && !(old(self).start(index as int) <= q < old(
                        self,
                    ).start(index as int) + data@.len()) ==> #[trigger] final(self).output@[q]
                        == old(self).output@[q]
            },
            r is Err ==> *final(self) == *old(self),
            final(self).output@.len() == old(self).output@.len(),
            final(self).piece_length == old(self).piece_length,
            final(self).hashes@ == old(self).hashes@,
    {
        if index >= self.hashes.len() {
            return Err(PeerError::UnexpectedMessage);
        }
        let len = self.output.len();
        proof {
            lemma_piece_in_file(index as int, self.piece_length as int, len as int);
        }
        let size = piece_len(index, self.piece_length, len);
        if data.len() != size {
            return Err(PeerError::UnexpectedMessage);
        }
        let digest = sha1_digest(data);
        if !bytes_equal(digest.as_slice(), self.hashes[index].0.as_slice()) {
            return Err(PeerError::PieceHashMismatch);
        }
        self.install(index, data);
        Ok(())
    }

    /// Whether every piece has landed.
    pub fn is_complete(&self) -> (r: bool)
        ensures
            r == self.complete(),
    {
        let mut i: usize = 0;
        while i < self.done.len()
            invariant
                i <= self.done@.len(),
                forall|j: int| 0 <= j < i ==> #[trigger] self.done@[j],
            decreases self.done@.len() - i,
        {
            if !self.done[i] {
                return false;
            }
            i = i + 1;
        }
        true
    }
}

/// Once every piece has landed, each piece's bytes in the output hash to its expected hash.
pub proof fn law_completed_download(a: FileAssembly)
    requires
        a.wf(),
        a.complete(),
    ensures
        forall|i: int|
            0 <= i < a.hashes@.len() ==> sha1_of(
                #[trigger] a.output@.subrange(i * a.piece_length, i * a.piece_length + piece_size(
                    i,
                    a.piece_length as int,
                    a.output@.len() as int,
                )),
            ) == a.hashes@[i].0@,
{
    assert forall|i: int| 0 <= i < a.hashes@.len() implies sha1_of(
        #[trigger] a.output@.subrange(i * a.piece_length, i * a.piece_length + piece_size(
            i,
            a.piece_length as int,
            a.output@.len() as int,
        )),
    ) == a.hashes@[i].0@ by {
        assert(a.done@[i]);
    }
}

/// Two complete outputs of one file whose pieces hold the same bytes are byte-identical,
/// whichever peers the pieces came from and in whatever order they landed.
pub proof fn law_output_determined(a: FileAssembly, b: FileAssembly)
    requires
        a.wf(),
        b.wf(),
        a.complete(),
        b.complete(),
        a.piece_length == b.piece_length,
        a.output@.len() == b.output@.len(),
        a.contents@ == b.contents@,
    ensures
        a.output@ == b.output@,
{
    let pl = a.piece_length as int;
    let len = a.output@.len() as int;
    assert forall|p: int| 0 <= p < len implies a.output@[p] == b.output@[p] by {
        lemma_locate(p, pl, len);
        let i = p / pl;
        assert(a.done@[i] && b.done@[i]);
        assert(a.slot(i)[p - a.start(i)] == a.output@[p]);
        assert(b.slot(i)[p - b.start(i)] == b.output@[p]);
    }
    assert(a.output@ =~= b.output@);
}

/// What becomes of a claimed piece once its fetch is over. Fetched bytes that land keep it
/// out of the queue. A failed fetch, or bytes that do not land, put it back in the queue,
/// and the session with that peer ends with the error.
pub fn settle_claim(
    queue: &mut Vec<(usize, PieceHash)>,
    output: &mut FileAssembly,
    item: (usize, PieceHash),
    fetched: Result<Vec<u8>, PeerError>,
) -> (r: Result<(), PeerError>)
    requires
        old(output).wf(),
    ensures
        final(output).wf(),
        r is Ok <==> (fetched matches Ok(b) && {
            &&& item.0 < old(output).hashes@.len()
            &&& b@.len() == old(output).size(item.0 as int)
            &&& sha1_of(b@) == old(output).hashes@[item.0 as int].0@
        }),
        r is Ok ==> final(queue)@ == old(queue)@ && final(output).done@ == old(
            output,
        ).done@.update(item.0 as int, true),
        r is Err ==> final(queue)@ == old(queue)@.push(item) && *final(output) == *old(output),
        fetched matches Err(e) ==> r == Err::<(), PeerError>(e),
{
    match fetched {
        Ok(bytes) => match output.land_piece(item.0, bytes.as_slice()) {
            Ok(()) => Ok(()),
            Err(e) => {
                requeue(queue, item);
                Err(e)
            },
        },
        Err(e) => {
            requeue(queue, item);
            Err(e)
        },
    }
}

} // verus!
