use vstd::prelude::*;
use vstd::slice::slice_subrange;

verus! {

/// Size of the reusable read buffer of a fingerprint engine.
pub const DEFAULT_BUFFER_SIZE: usize = 4096;

/// The CRC-32 (IEEE polynomial) of `bytes`, continued from the running value `crc`.
pub uninterp spec fn crc32_ieee_update(crc: u32, bytes: Seq<u8>) -> u32;

/// The fingerprint of a byte string: its CRC-32 (IEEE), as zip archives store it.
pub open spec fn checksum(bytes: Seq<u8>) -> u32 {
    crc32_ieee_update(0, bytes)
}

/// Relies on `crc::crc32::update` with `crc::crc32::IEEE_TABLE`: it continues the
/// running checksum `crc` over `bytes`. The function complements the value,
/// folds the table over the bytes and complements again, so no bytes leave a
/// value as it is, and continuing the result over more bytes is the same as
/// continuing `crc` over `bytes` followed by those.
#[verifier::external_body]
fn update_ieee(crc: u32, bytes: &[u8]) -> (r: u32)
    ensures
        r == crc32_ieee_update(crc, bytes@),
        bytes@.len() == 0 ==> r == crc,
        crc32_ieee_update(r, Seq::<u8>::empty()) == r,
        forall|more: Seq<u8>|
            #[trigger] crc32_ieee_update(r, more) == crc32_ieee_update(crc, bytes@ + more),
{
    crc::crc32::update(crc, &crc::crc32::IEEE_TABLE, bytes)
}

/// A fingerprint engine: a running CRC-32 of the bytes fed since the last
/// reset, and a fixed-size buffer that is reused from one file to the next.
pub struct FastHasher {
    digest: u32,
    fed: Ghost<Seq<u8>>,
    buffer: Vec<u8>,
}

impl FastHasher {
    /// The bytes fed since the last reset.
    pub closed spec fn fed(&self) -> Seq<u8> {
        self.fed@
    }

    /// The size of the reusable buffer.
    pub closed spec fn buffer_size(&self) -> nat {
        self.buffer@.len()
    }

    /// The bytes in the reusable buffer.
    pub closed spec fn buffer(&self) -> Seq<u8> {
        self.buffer@
    }

    /// The running checksum stands for the bytes fed so far.
    pub closed spec fn wf(&self) -> bool {
        &&& self.digest == checksum(self.fed@)
        &&& crc32_ieee_update(self.digest, Seq::<u8>::empty()) == self.digest
        &&& forall|more: Seq<u8>|
            #[trigger] crc32_ieee_update(self.digest, more) == checksum(self.fed@ + more)
    }

    pub fn new(buffer_size: usize) -> (r: FastHasher)
        ensures
            r.wf(),
            r.fed() == Seq::<u8>::empty(),
            r.buffer_size() == buffer_size,
            r.buffer() == Seq::new(buffer_size as nat, |i: int| 0u8),
    {
        let mut buffer: Vec<u8> = Vec::with_capacity(buffer_size);
        let mut i: usize = 0;
        while i < buffer_size
            invariant
                i <= buffer_size,
                buffer@ == Seq::new(i as nat, |j: int| 0u8),
            decreases buffer_size - i,
        {
            buffer.push(0u8);
            i = i + 1;
            assert(buffer@ =~= Seq::new(i as nat, |j: int| 0u8));
        }
        assert(buffer@ =~= Seq::new(buffer_size as nat, |j: int| 0u8));
        let mut r = FastHasher { digest: 0, fed: Ghost(Seq::empty()), buffer };
        r.reset();
        r
    }

    /// Starts a new file: nothing has been fed.
    pub fn reset(&mut self)
        ensures
            final(self).wf(),
            final(self).fed() == Seq::<u8>::empty(),
            final(self).buffer_size() == old(self).buffer_size(),
            final(self).buffer() == old(self).buffer(),
    {
        let empty: [u8; 0] = [];
        self.digest = update_ieee(0, empty.as_slice());
        self.fed = Ghost(Seq::empty());
        assert forall|more: Seq<u8>| #[trigger] crc32_ieee_update(self.digest, more) == checksum(
            self.fed@ + more,
        ) by {
            assert(empty@ + more =~= self.fed@ + more);
        }
    }

    /// Feeds the next piece of the current file.
    pub fn write(&mut self, bytes: &[u8])
        requires
            old(self).wf(),
        ensures
            final(self).wf(),
            final(self).fed() == old(self).fed() + bytes@,
            final(self).buffer_size() == old(self).buffer_size(),
            final(self).buffer() == old(self).buffer(),
    {
        let ghost d = self.digest;
        self.digest = update_ieee(self.digest, bytes);
        self.fed = Ghost(self.fed@ + bytes@);
        assert forall|more: Seq<u8>| #[trigger] crc32_ieee_update(self.digest, more) == checksum(
            self.fed@ + more,
        ) by {
            assert(crc32_ieee_update(d, bytes@ + more) == checksum(old(self).fed@ + (bytes@ + more)));
            assert(old(self).fed@ + (bytes@ + more) =~= self.fed@ + more);
        }
        assert(crc32_ieee_update(self.digest, Seq::<u8>::empty()) == checksum(self.fed@ + Seq::<u8>::empty()));
        assert(self.fed@ + Seq::<u8>::empty() =~= self.fed@);
    }

    /// The checksum of what was fed since the last reset.
    pub fn sum32(&self) -> (r: u32)
        requires
            self.wf(),
        ensures
            r == checksum(self.fed()),
    {
        self.digest
    }

    /// Lends out the reusable buffer, e.g. to read a file into it; the
    /// engine holds no buffer until it is given back.
    pub fn take_buffer(&mut self) -> (r: Vec<u8>)
        ensures
            r@ == old(self).buffer(),
            r@.len() == old(self).buffer_size(),
            final(self).buffer_size() == 0,
            final(self).fed() == old(self).fed(),
            old(self).wf() ==> final(self).wf(),
    {
        let mut r: Vec<u8> = Vec::new();
        std::mem::swap(&mut r, &mut self.buffer);
        r
    }

    /// Gives a buffer back to the engine for reuse.
    pub fn put_buffer(&mut self, buffer: Vec<u8>)
        ensures
            final(self).buffer() == buffer@,
            final(self).buffer_size() == buffer@.len(),
            final(self).fed() == old(self).fed(),
            old(self).wf() ==> final(self).wf(),
    {
        self.buffer = buffer;
    }

    /// The fingerprint of `data`: the checksum is reset once, then `data` is
    /// copied piece by piece through the engine's buffer and each piece is fed
    /// to that checksum in turn.
    pub fn hash(&mut self, data: &[u8]) -> (r: u32)
        requires
            old(self).buffer_size() > 0,
        ensures
            r == checksum(data@),
            final(self).wf(),
            final(self).fed() == data@,
            final(self).buffer_size() == old(self).buffer_size(),
    {
        self.reset();
        let size = self.buffer.len();
        let dlen = data.len();
        let mut start: usize = 0;
        assert(data@.take(0) =~= Seq::<u8>::empty());
        while start < dlen
            invariant
                self.wf(),
                self.buffer@.len() == size,
                size > 0,
                start <= dlen,
                dlen == data@.len(),
                self.fed@ == data@.take(start as int),
            decreases data@.len() - start,
        {
            let rest = dlen - start;
            let n: usize = if rest < size { rest } else { size };
            let mut buf = self.take_buffer();
            let mut k: usize = 0;
            while k < n
                invariant
                    buf@.len() == size,
                    n <= size,
                    start + n <= dlen,
                    dlen == data@.len(),
                    k <= n,
                    forall|j: int| 0 <= j < k ==> buf@[j] == data@[start + j],
                decreases n - k,
            {
                buf.set(k, data[start + k]);
                k = k + 1;
            }
            let piece = slice_subrange(buf.as_slice(), 0, n);
            assert(piece@ =~= data@.subrange(start as int, start + n));
            self.write(piece);
            self.put_buffer(buf);
            assert(data@.take(start as int) + data@.subrange(start as int, start + n) =~= data@.take(
                start + n,
            ));
            start = start + n;
        }
        assert(data@.take(dlen as int) =~= data@);
        self.sum32()
    }
}

/// The fingerprint of a file's content, computed by a caller-owned engine.
pub fn fast_hash(hasher: &mut FastHasher, data: &[u8]) -> (r: u32)
    requires
        old(hasher).buffer_size() > 0,
    ensures
        r == checksum(data@),
        final(hasher).wf(),
        final(hasher).buffer_size() == old(hasher).buffer_size(),
{
    hasher.hash(data)
}

/// Whether a file name has the extension `zip`, exactly: the name ends in
/// `.zip` and something stands before that dot.
pub open spec fn is_zip_name(name: Seq<u8>) -> bool {
    name.len() > 4 && name.skip(name.len() - 4) == seq![46u8, 122u8, 105u8, 112u8]
}

/// Whether the walk should also list the file as a zip archive.
pub fn has_zip_extension(name: &[u8]) -> (r: bool)
    ensures
        r == is_zip_name(name@),
{
    let n = name.len();
    if n <= 4 {
        return false;
    }
    let r = name[n - 4] == 46u8 && name[n - 3] == 122u8 && name[n - 2] == 105u8 && name[n - 1] == 112u8;
    assert(r == (name@.skip(n - 4) =~= seq![46u8, 122u8, 105u8, 112u8]));
    r
}

} // verus!
