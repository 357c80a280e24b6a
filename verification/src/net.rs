use vstd::prelude::*;
use vstd::string::StringSliceAdditionalSpecFns;

verus! {

/// How many bytes a write of `data_len` bytes puts into a buffer with
/// `room` bytes left: as many as fit.
pub open spec fn write_amount(data_len: nat, room: nat) -> nat {
    if data_len < room {
        data_len
    } else {
        room
    }
}

/// A write puts in the whole text when it fits, and exactly as many bytes as
/// there is room for when it does not: the smaller of the two lengths, for
/// every length and every room.
pub proof fn lemma_write_amount_is_min(data_len: nat, room: nat)
    ensures
        data_len <= room ==> write_amount(data_len, room) == data_len,
        data_len > room ==> write_amount(data_len, room) == room,
        write_amount(data_len, room) <= data_len,
        write_amount(data_len, room) <= room,
        write_amount(data_len, room) == data_len || write_amount(data_len, room) == room,
{
}

/// The error type of `core::fmt` writes; it carries no data.
#[verifier::external_type_specification]
#[verifier::external_body]
pub struct ExFmtError(core::fmt::Error);

/// A writer over a borrowed byte buffer, in the manner of `std::io::Write`
/// for `&mut [u8]`: each write copies as much of the text as fits and moves the
/// buffer on to its yet unwritten part.
pub struct WriteHelper<'a>(&'a mut [u8]);

impl<'a> WriteHelper<'a> {
    /// The part of the buffer not yet written.
    pub closed spec fn buffer(self) -> &'a mut [u8] {
        self.0
    }

    /// A writer that starts at the beginning of `inner`.
    pub fn new(inner: &'a mut [u8]) -> (res: Self)
        ensures
            res.buffer()@ == old(inner)@,
            final(res.buffer())@ == final(inner)@,
    {
        Self(inner)
    }

    /// Gives back the part of the buffer not yet written.
    pub fn into_raw(self) -> (res: &'a mut [u8])
        ensures
            res@ == self.buffer()@,
            final(res)@ == final(self.buffer())@,
    {
        self.0
    }

    /// Writes as many bytes of `data` as fit into the rest of the buffer and
    /// moves past them; never fails. Where `data` does not fit, its bytes are
    /// cut at the end of the buffer, even inside a character.
    pub fn write_str(&mut self, data: &str) -> (r: core::fmt::Result)
        ensures
            ({
                let amt = write_amount(data.spec_bytes().len(), old(self).buffer()@.len()) as int;
                &&& final(self).buffer()@ == old(self).buffer()@.skip(amt)
                &&& final(old(self).buffer())@ == data.spec_bytes().take(amt) + final(final(self).buffer())@
            }),
            data.spec_bytes().len() <= old(self).buffer()@.len() ==> {
                &&& final(self).buffer()@.len() == old(self).buffer()@.len() - data.spec_bytes().len()
                &&& final(old(self).buffer())@ == data.spec_bytes() + final(final(self).buffer())@
            },
            data.spec_bytes().len() > old(self).buffer()@.len() ==> {
                &&& final(self).buffer()@.len() == 0
                &&& final(old(self).buffer())@ == data.spec_bytes().take(old(self).buffer()@.len() as int)
                    + final(final(self).buffer())@
            },
            r is Ok,
    {
        let room = self.0.len();
        let all: &[u8] = data.as_bytes();
        let amt = if all.len() < room {
            all.len()
        } else {
            room
        };
        let (bytes, _rest) = all.split_at(amt);
        let mut taken: &'a mut [u8] = &mut [];
        core::mem::swap(&mut self.0, &mut taken);
        let (head, tail) = taken.split_at_mut(amt);
        let mut i: usize = 0;
        while i < amt
            invariant
                amt == bytes@.len(),
                amt == head@.len(),
                i <= amt,
                forall|j: int| 0 <= j < i ==> head@[j] == bytes@[j],
            decreases amt - i,
        {
            head[i] = bytes[i];
            i = i + 1;
        }
        assert(head@ =~= bytes@);
        self.0 = tail;
        Ok(())
    }
}

/// Two writes in a row fill a buffer exactly as one write of the two texts
/// joined: together they put in as many bytes as fit, and those bytes are the
/// start of the joined text.
pub proof fn lemma_consecutive_writes(first: Seq<u8>, second: Seq<u8>, room: nat)
    ensures
        ({
            let n1 = write_amount(first.len(), room);
            let n2 = write_amount(second.len(), (room - n1) as nat);
            &&& n1 + n2 == write_amount((first + second).len(), room)
            &&& first.take(n1 as int) + second.take(n2 as int) == (first + second).take(
                (n1 + n2) as int,
            )
        }),
{
    let n1 = write_amount(first.len(), room);
    let n2 = write_amount(second.len(), (room - n1) as nat);
    assert(first.take(n1 as int) + second.take(n2 as int) =~= (first + second).take(
        (n1 + n2) as int,
    ));
}

/// The texts written one after the other, joined.
pub open spec fn joined(texts: Seq<Seq<u8>>) -> Seq<u8>
    decreases texts.len(),
{
    if texts.len() == 0 {
        Seq::empty()
    } else {
        joined(texts.drop_last()) + texts.last()
    }
}

/// The unwritten part of a buffer after writing each text in turn, one write
/// as `WriteHelper::write_str` does it.
pub open spec fn remaining_after(buf: Seq<u8>, texts: Seq<Seq<u8>>) -> Seq<u8>
    decreases texts.len(),
{
    if texts.len() == 0 {
        buf
    } else {
        let prev = remaining_after(buf, texts.drop_last());
        prev.skip(write_amount(texts.last().len(), prev.len()) as int)
    }
}

/// The bytes that writing each text in turn puts at the start of a buffer of
/// `room` bytes, one write as `WriteHelper::write_str` does it.
pub open spec fn put_after(room: nat, texts: Seq<Seq<u8>>) -> Seq<u8>
    decreases texts.len(),
{
    if texts.len() == 0 {
        Seq::empty()
    } else {
        let prev = put_after(room, texts.drop_last());
        prev + texts.last().take(write_amount(texts.last().len(), (room - prev.len()) as nat) as int)
    }
}

/// Any number of writes in a row fill a buffer as one write of all the texts
/// joined: with `n` the joined length and `L` the buffer's, they put in the
/// first `min(n, L)` bytes of the joined text, and the unwritten part that
/// `into_raw` gives back is the buffer from offset `min(n, L)` on, of length
/// `L - min(n, L)`; with no writes it is the whole buffer.
pub proof fn lemma_writes_in_turn(buf: Seq<u8>, texts: Seq<Seq<u8>>)
    ensures
        ({
            let amt = write_amount(joined(texts).len(), buf.len());
            &&& put_after(buf.len(), texts) == joined(texts).take(amt as int)
            &&& remaining_after(buf, texts) == buf.skip(amt as int)
            &&& remaining_after(buf, texts).len() == buf.len() - amt
        }),
        texts.len() == 0 ==> remaining_after(buf, texts) == buf,
    decreases texts.len(),
{
    if texts.len() == 0 {
        assert(joined(texts).take(0) =~= Seq::<u8>::empty());
        assert(buf.skip(0) =~= buf);
    } else {
        let init = texts.drop_last();
        let last = texts.last();
        lemma_writes_in_turn(buf, init);
        let n1 = write_amount(joined(init).len(), buf.len());
        let n2 = write_amount(last.len(), (buf.len() - n1) as nat);
        lemma_consecutive_writes(joined(init), last, buf.len());
        assert(put_after(buf.len(), texts) =~= joined(texts).take((n1 + n2) as int));
        assert(buf.skip(n1 as int).skip(n2 as int) =~= buf.skip((n1 + n2) as int));
    }
}

} // verus!
