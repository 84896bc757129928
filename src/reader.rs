use vstd::prelude::*;

verus! {

/// Byte order of the integers in a serialized object.
#[derive(Clone, Copy, Debug, PartialEq, Eq, Structural)]
pub enum ByteOrder {
    Big,
    Little,
}

/// The reader ran past the end of its bytes.
#[derive(Clone, Copy, Debug, PartialEq, Eq, Structural)]
pub struct Eof;

/// Why an aligned string could not be read.
#[derive(Clone, Copy, Debug, PartialEq, Eq, Structural)]
pub enum ReadStringError {
    /// The length, the bytes or the padding ran past the end.
    Eof,
    /// The bytes are not UTF-8.
    Utf8,
}

/// The text that UTF-8 bytes spell, or `None` when they are not UTF-8.
pub uninterp spec fn utf8_text(b: Seq<u8>) -> Option<Seq<char>>;

/// Relies on `String::from_utf8`: it succeeds exactly on valid UTF-8 and then
/// holds the text the bytes spell.
#[verifier::external_body]
pub(crate) fn text_from_utf8(b: Vec<u8>) -> (r: Option<String>)
    ensures
        r is None <==> utf8_text(b@) is None,
        r matches Some(s) ==> utf8_text(b@) == Some(s@),
{
    String::from_utf8(b).ok()
}

/// Value of bytes read least significant first.
pub open spec fn le_value(s: Seq<u8>) -> nat
    decreases s.len(),
{
    if s.len() == 0 {
        0
    } else {
        s[0] as nat + 256 * le_value(s.drop_first())
    }
}

/// Value of bytes read most significant first.
pub open spec fn be_value(s: Seq<u8>) -> nat
    decreases s.len(),
{
    if s.len() == 0 {
        0
    } else {
        be_value(s.drop_last()) * 256 + s.last() as nat
    }
}

pub open spec fn uint_of(s: Seq<u8>, order: ByteOrder) -> nat {
    match order {
        ByteOrder::Little => le_value(s),
        ByteOrder::Big => be_value(s),
    }
}

/// The unsigned integer of `n` bytes at `pos`.
pub open spec fn uint_at(data: Seq<u8>, pos: int, n: int, order: ByteOrder) -> nat {
    uint_of(data.subrange(pos, pos + n), order)
}

pub open spec fn pow256(n: nat) -> nat
    decreases n,
{
    if n == 0 {
        1
    } else {
        256 * pow256((n - 1) as nat)
    }
}

proof fn lemma_pow256_mono(a: nat, b: nat)
    requires
        a <= b,
    ensures
        pow256(a) <= pow256(b),
    decreases b,
{
    if a < b {
        lemma_pow256_mono(a, (b - 1) as nat);
    }
}

pub proof fn lemma_pow256_4()
    ensures
        pow256(4) == 0x1_0000_0000,
{
    reveal_with_fuel(pow256, 5);
}

proof fn lemma_pow256_7()
    ensures
        pow256(7) == 0x100000000000000,
{
    reveal_with_fuel(pow256, 8);
}

/// The position `p` rounded up to a multiple of four.
pub open spec fn align4(p: int) -> int {
    if p % 4 == 0 {
        p
    } else {
        p + (4 - p % 4)
    }
}

/// A cursor over borrowed bytes.
pub struct Reader<'a> {
    pub data: &'a [u8],
    pub pos: usize,
    pub order: ByteOrder,
}

impl<'a> Reader<'a> {
    pub open spec fn wf(&self) -> bool {
        self.pos <= self.data@.len() <= usize::MAX
    }

    pub fn new(data: &'a [u8], order: ByteOrder) -> (r: Reader<'a>)
        ensures
            r.data@ == data@,
            r.pos == 0,
            r.order == order,
            r.wf(),
    {
        let _len = data.len();
        Reader { data, pos: 0, order }
    }

    pub fn position(&self) -> (r: usize)
        ensures
            r == self.pos,
    {
        self.pos
    }

    pub fn remaining(&self) -> (r: usize)
        requires
            self.wf(),
        ensures
            r == self.data@.len() - self.pos,
    {
        self.data.len() - self.pos
    }

    /// Reads an unsigned integer of `n` bytes in the reader's byte order.
    pub fn read_uint(&mut self, n: usize) -> (r: Result<u64, Eof>)
        requires
            old(self).wf(),
            n <= 8,
        ensures
            final(self).wf(),
            final(self).data == old(self).data,
            final(self).order == old(self).order,
            old(self).pos + n <= old(self).data@.len() ==> r == Ok::<u64, Eof>(
                uint_at(old(self).data@, old(self).pos as int, n as int, old(self).order) as u64,
            ) && final(self).pos == old(self).pos + n
                && uint_at(old(self).data@, old(self).pos as int, n as int, old(self).order) < pow256(n as nat),
            old(self).pos + n > old(self).data@.len() ==> r == Err::<u64, Eof>(Eof) && final(self).pos == old(self).pos,
    {
        if n > self.data.len() - self.pos {
            return Err(Eof);
        }
        let start = self.pos;
        let len = self.data.len();
        let ghost s = self.data@.subrange(start as int, start + n);
        let mut acc: u64 = 0;
        match self.order {
            ByteOrder::Big => {
                let mut k: usize = 0;
                while k < n
                    invariant
                        k <= n,
                        n <= 8,
                        start + n <= self.data@.len(),
                        len == self.data@.len(),
                        s == self.data@.subrange(start as int, start + n),
                        acc == be_value(s.subrange(0, k as int)),
                        acc < pow256(k as nat),
                    decreases n - k,
                {
                    let b = self.data[start + k];
                    proof {
                        let t = s.subrange(0, k + 1);
                        assert(t.drop_last() =~= s.subrange(0, k as int));
                        lemma_pow256_mono(k as nat, 7);
                        lemma_pow256_7();
                        assert(pow256((k + 1) as nat) == 256 * pow256(k as nat));
                    }
                    acc = acc * 256 + b as u64;
                    k = k + 1;
                }
                assert(s.subrange(0, n as int) =~= s);
            },
            ByteOrder::Little => {
                let mut k: usize = n;
                while k > 0
                    invariant
                        k <= n,
                        n <= 8,
                        start + n <= self.data@.len(),
                        len == self.data@.len(),
                        s == self.data@.subrange(start as int, start + n),
                        acc == le_value(s.subrange(k as int, n as int)),
                        acc < pow256((n - k) as nat),
                    decreases k,
                {
                    let b = self.data[start + k - 1];
                    proof {
                        let t = s.subrange(k - 1, n as int);
                        assert(t.drop_first() =~= s.subrange(k as int, n as int));
                        lemma_pow256_mono((n - k) as nat, 7);
                        lemma_pow256_7();
                        assert(pow256((n - k + 1) as nat) == 256 * pow256((n - k) as nat));
                    }
                    acc = b as u64 + 256 * acc;
                    k = k - 1;
                }
                assert(s.subrange(0, n as int) =~= s);
            },
        }
        self.pos = start + n;
        Ok(acc)
    }

    pub fn read_u8(&mut self) -> (r: Result<u8, Eof>)
        requires
            old(self).wf(),
        ensures
            final(self).wf(),
            final(self).data == old(self).data,
            final(self).order == old(self).order,
            old(self).pos + 1 <= old(self).data@.len() ==> r == Ok::<u8, Eof>((uint_at(old(self).data@, old(self).pos as int, 1, old(self).order) as u64) as u8)
                && final(self).pos == old(self).pos + 1,
            old(self).pos + 1 > old(self).data@.len() ==> r == Err::<u8, Eof>(Eof) && final(self).pos
                == old(self).pos,
    {
        match self.read_uint(1) {
            Ok(v) => Ok(v as u8),
            Err(e) => Err(e),
        }
    }

    pub fn read_u16(&mut self) -> (r: Result<u16, Eof>)
        requires
            old(self).wf(),
        ensures
            final(self).wf(),
            final(self).data == old(self).data,
            final(self).order == old(self).order,
            old(self).pos + 2 <= old(self).data@.len() ==> r == Ok::<u16, Eof>((uint_at(old(self).data@, old(self).pos as int, 2, old(self).order) as u64) as u16)
                && final(self).pos == old(self).pos + 2,
            old(self).pos + 2 > old(self).data@.len() ==> r == Err::<u16, Eof>(Eof) && final(self).pos
                == old(self).pos,
    {
        match self.read_uint(2) {
            Ok(v) => Ok(v as u16),
            Err(e) => Err(e),
        }
    }

    pub fn read_u32(&mut self) -> (r: Result<u32, Eof>)
        requires
            old(self).wf(),
        ensures
            final(self).wf(),
            final(self).data == old(self).data,
            final(self).order == old(self).order,
            old(self).pos + 4 <= old(self).data@.len() ==> r == Ok::<u32, Eof>((uint_at(old(self).data@, old(self).pos as int, 4, old(self).order) as u64) as u32)
                && final(self).pos == old(self).pos + 4,
            old(self).pos + 4 > old(self).data@.len() ==> r == Err::<u32, Eof>(Eof) && final(self).pos
                == old(self).pos,
    {
        match self.read_uint(4) {
            Ok(v) => Ok(v as u32),
            Err(e) => Err(e),
        }
    }

    pub fn read_u64(&mut self) -> (r: Result<u64, Eof>)
        requires
            old(self).wf(),
        ensures
            final(self).wf(),
            final(self).data == old(self).data,
            final(self).order == old(self).order,
            old(self).pos + 8 <= old(self).data@.len() ==> r == Ok::<u64, Eof>((uint_at(old(self).data@, old(self).pos as int, 8, old(self).order) as u64))
                && final(self).pos == old(self).pos + 8,
            old(self).pos + 8 > old(self).data@.len() ==> r == Err::<u64, Eof>(Eof) && final(self).pos
                == old(self).pos,
    {
        match self.read_uint(8) {
            Ok(v) => Ok(v),
            Err(e) => Err(e),
        }
    }

    pub fn read_i8(&mut self) -> (r: Result<i8, Eof>)
        requires
            old(self).wf(),
        ensures
            final(self).wf(),
            final(self).data == old(self).data,
            final(self).order == old(self).order,
            old(self).pos + 1 <= old(self).data@.len() ==> r == Ok::<i8, Eof>((uint_at(old(self).data@, old(self).pos as int, 1, old(self).order) as u64) as u8 as i8)
                && final(self).pos == old(self).pos + 1,
            old(self).pos + 1 > old(self).data@.len() ==> r == Err::<i8, Eof>(Eof) && final(self).pos
                == old(self).pos,
    {
        match self.read_uint(1) {
            Ok(v) => Ok(v as u8 as i8),
            Err(e) => Err(e),
        }
    }

    pub fn read_i16(&mut self) -> (r: Result<i16, Eof>)
        requires
            old(self).wf(),
        ensures
            final(self).wf(),
            final(self).data == old(self).data,
            final(self).order == old(self).order,
            old(self).pos + 2 <= old(self).data@.len() ==> r == Ok::<i16, Eof>((uint_at(old(self).data@, old(self).pos as int, 2, old(self).order) as u64) as u16 as i16)
                && final(self).pos == old(self).pos + 2,
            old(self).pos + 2 > old(self).data@.len() ==> r == Err::<i16, Eof>(Eof) && final(self).pos
                == old(self).pos,
    {
        match self.read_uint(2) {
            Ok(v) => Ok(v as u16 as i16),
            Err(e) => Err(e),
        }
    }

    pub fn read_i32(&mut self) -> (r: Result<i32, Eof>)
        requires
            old(self).wf(),
        ensures
            final(self).wf(),
            final(self).data == old(self).data,
            final(self).order == old(self).order,
            old(self).pos + 4 <= old(self).data@.len() ==> r == Ok::<i32, Eof>((uint_at(old(self).data@, old(self).pos as int, 4, old(self).order) as u64) as u32 as i32)
                && final(self).pos == old(self).pos + 4,
            old(self).pos + 4 > old(self).data@.len() ==> r == Err::<i32, Eof>(Eof) && final(self).pos
                == old(self).pos,
    {
        match self.read_uint(4) {
            Ok(v) => Ok(v as u32 as i32),
            Err(e) => Err(e),
        }
    }

    pub fn read_i64(&mut self) -> (r: Result<i64, Eof>)
        requires
            old(self).wf(),
        ensures
            final(self).wf(),
            final(self).data == old(self).data,
            final(self).order == old(self).order,
            old(self).pos + 8 <= old(self).data@.len() ==> r == Ok::<i64, Eof>((uint_at(old(self).data@, old(self).pos as int, 8, old(self).order) as u64) as i64)
                && final(self).pos == old(self).pos + 8,
            old(self).pos + 8 > old(self).data@.len() ==> r == Err::<i64, Eof>(Eof) && final(self).pos
                == old(self).pos,
    {
        match self.read_uint(8) {
            Ok(v) => Ok(v as i64),
            Err(e) => Err(e),
        }
    }

    /// Reads one byte; any non-zero byte is `true`.
    pub fn read_bool(&mut self) -> (r: Result<bool, Eof>)
        requires
            old(self).wf(),
        ensures
            final(self).wf(),
            final(self).data == old(self).data,
            final(self).order == old(self).order,
            old(self).pos + 1 <= old(self).data@.len() ==> r == Ok::<bool, Eof>(
                old(self).data@[old(self).pos as int] != 0,
            ) && final(self).pos == old(self).pos + 1,
            old(self).pos + 1 > old(self).data@.len() ==> r == Err::<bool, Eof>(Eof) && final(self).pos
                == old(self).pos,
    {
        if self.pos >= self.data.len() {
            return Err(Eof);
        }
        let b = self.data[self.pos];
        self.pos = self.pos + 1;
        Ok(b != 0)
    }

    /// Reads the next `n` bytes.
    pub fn read_u8_list(&mut self, n: usize) -> (r: Result<Vec<u8>, Eof>)
        requires
            old(self).wf(),
        ensures
            final(self).wf(),
            final(self).data == old(self).data,
            final(self).order == old(self).order,
            old(self).pos + n <= old(self).data@.len() ==> (r matches Ok(v) && v@
                == old(self).data@.subrange(old(self).pos as int, old(self).pos + n) && final(self).pos
                == old(self).pos + n),
            old(self).pos + n > old(self).data@.len() ==> r == Err::<Vec<u8>, Eof>(Eof)
                && final(self).pos == old(self).pos,
    {
        if n > self.data.len() - self.pos {
            return Err(Eof);
        }
        let start = self.pos;
        let mut out: Vec<u8> = Vec::new();
        let mut k: usize = 0;
        while k < n
            invariant
                k <= n,
                start + n <= self.data@.len(),
                self.data@.len() <= usize::MAX,
                out@ == self.data@.subrange(start as int, start + k),
            decreases n - k,
        {
            out.push(self.data[start + k]);
            k = k + 1;
            assert(out@ =~= self.data@.subrange(start as int, start + k));
        }
        self.pos = start + n;
        Ok(out)
    }

    /// Reads a 4-byte length, that many UTF-8 bytes, then pads to four.
    pub fn read_aligned_string(&mut self) -> (r: Result<String, ReadStringError>)
        requires
            old(self).wf(),
        ensures
            final(self).wf(),
            final(self).data == old(self).data,
            final(self).order == old(self).order,
            ({
                let p = old(self).pos as int;
                let len = old(self).data@.len();
                let l = uint_at(old(self).data@, p, 4, old(self).order);
                let text = utf8_text(old(self).data@.subrange(p + 4, p + 4 + l));
                if p + 4 > len || p + 4 + l > len || align4(p + 4 + l) > len {
                    r == Err::<String, ReadStringError>(ReadStringError::Eof)
                } else if text is None {
                    r == Err::<String, ReadStringError>(ReadStringError::Utf8)
                } else {
                    r matches Ok(s) && Some(s@) == text && final(self).pos == align4(p + 4 + l)
                }
            }),
    {
        proof {
            lemma_pow256_4();
        }
        let l = match self.read_uint(4) {
            Ok(v) => v,
            Err(_) => return Err(ReadStringError::Eof),
        };
        let rest = self.remaining();
        if l > rest as u64 {
            return Err(ReadStringError::Eof);
        }
        let bytes = match self.read_u8_list(l as usize) {
            Ok(b) => b,
            Err(_) => return Err(ReadStringError::Eof),
        };
        if self.align().is_err() {
            return Err(ReadStringError::Eof);
        }
        match text_from_utf8(bytes) {
            Some(s) => Ok(s),
            None => Err(ReadStringError::Utf8),
        }
    }

    /// Advances the position to the next multiple of four.
    pub fn align(&mut self) -> (r: Result<(), Eof>)
        requires
            old(self).wf(),
        ensures
            final(self).wf(),
            final(self).data == old(self).data,
            final(self).order == old(self).order,
            align4(old(self).pos as int) <= old(self).data@.len() ==> r is Ok && final(self).pos
                == align4(old(self).pos as int),
            align4(old(self).pos as int) > old(self).data@.len() ==> r is Err && final(self).pos
                == old(self).pos,
    {
        let rest = self.pos % 4;
        if rest == 0 {
            return Ok(());
        }
        let pad = 4 - rest;
        if pad > self.data.len() - self.pos {
            return Err(Eof);
        }
        self.pos = self.pos + pad;
        Ok(())
    }
}

/// The `n` low bytes of `v`, least significant first.
pub open spec fn le_bytes(v: nat, n: nat) -> Seq<u8>
    decreases n,
{
    if n == 0 {
        Seq::empty()
    } else {
        seq![(v % 256) as u8] + le_bytes(v / 256, (n - 1) as nat)
    }
}

/// The `n` low bytes of `v` in the given byte order.
pub open spec fn encode(v: nat, n: nat, order: ByteOrder) -> Seq<u8> {
    match order {
        ByteOrder::Little => le_bytes(v, n),
        ByteOrder::Big => le_bytes(v, n).reverse(),
    }
}

pub proof fn lemma_le_round_trip(v: nat, n: nat)
    requires
        v < pow256(n),
    ensures
        le_bytes(v, n).len() == n,
        le_value(le_bytes(v, n)) == v,
    decreases n,
{
    if n > 0 {
        lemma_le_round_trip(v / 256, (n - 1) as nat);
        let s = le_bytes(v, n);
        assert(s.drop_first() =~= le_bytes(v / 256, (n - 1) as nat));
    }
}

pub proof fn lemma_be_of_reverse(s: Seq<u8>)
    ensures
        be_value(s.reverse()) == le_value(s),
        s.reverse().len() == s.len(),
    decreases s.len(),
{
    if s.len() > 0 {
        let r = s.reverse();
        lemma_be_of_reverse(s.drop_first());
        assert(r.drop_last() =~= s.drop_first().reverse());
        assert(r.last() == s[0]);
    }
}

/// Bytes written in either byte order read back as the value written.
pub proof fn lemma_encode_round_trip(v: nat, n: nat, order: ByteOrder)
    requires
        v < pow256(n),
    ensures
        encode(v, n, order).len() == n,
        uint_of(encode(v, n, order), order) == v,
{
    lemma_le_round_trip(v, n);
    lemma_be_of_reverse(le_bytes(v, n));
}

} // verus!
