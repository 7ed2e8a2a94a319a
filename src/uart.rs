//! Byte encoding of text and addresses for the serial console. Bytes written
//! here are queued; the driver that owns the device drains the queue.
use vstd::prelude::*;
use vstd::string::StringSliceAdditionalSpecFns;

verus! {

/// ASCII hexadecimal digit of `d`, for `0 <= d < 16`.
pub open spec fn hex_digit(d: int) -> u8 {
    if d < 10 {
        (48 + d) as u8
    } else {
        (97 + d - 10) as u8
    }
}

/// The four bits of `number` at quartet `index`, counted from the least
/// significant end.
pub open spec fn quartet(number: u64, index: int) -> int {
    ((number >> ((4 * index) as u64)) & 15u64) as int
}

/// Number of hexadecimal digits printed for `address`.
pub open spec fn address_width(address: u64) -> int {
    if address < 0x1_0000u64 {
        4
    } else if address < 0x1_0000_0000u64 {
        8
    } else {
        16
    }
}

/// The `width` low hexadecimal digits of `address`, most significant first.
pub open spec fn hex_digits(address: u64, width: int) -> Seq<u8> {
    Seq::new(width as nat, |k: int| hex_digit(quartet(address, width - 1 - k)))
}

/// How an address is printed: ` 0x`, its digits, and a space.
pub open spec fn address_token(address: u64) -> Seq<u8> {
    seq![32u8, 48u8, 120u8] + hex_digits(address, address_width(address)) + seq![32u8]
}

// Returns the hexadecimal digit (0 - f) of the quartet `index` of `number`,
// quartets counted from the least significant side.
fn hex_quartet_digit(number: usize, index: usize) -> (r: u8)
    requires
        index < 16,
    ensures
        r == hex_digit(quartet(number as u64, index as int)),
{
    let shift: u64 = 4 * index as u64;
    let n: u64 = number as u64;
    let q: u64 = (n >> shift) & 0xf;
    assert(q < 16) by (bit_vector)
        requires
            q == (n >> shift) & 0xf,
    ;
    if q < 10 {
        48u8 + q as u8
    } else {
        97u8 + (q - 10) as u8
    }
}

/// A serial console at a device address, with the bytes written to it that
/// the device has not taken yet.
pub struct UART {
    base_address: usize,
    pending: Vec<u8>,
}

impl UART {
    pub closed spec fn address(&self) -> usize {
        self.base_address
    }

    /// Bytes written and not yet taken by the device driver.
    pub closed spec fn output(&self) -> Seq<u8> {
        self.pending@
    }

    pub fn new(address: usize) -> (r: Self)
        ensures
            r.address() == address,
            r.output() == Seq::<u8>::empty(),
    {
        UART { base_address: address, pending: Vec::new() }
    }

    pub fn base_address(&self) -> (r: usize)
        ensures
            r == self.address(),
    {
        self.base_address
    }

    /// Queues one byte.
    pub fn put(&mut self, byte: u8)
        ensures
            final(self).address() == old(self).address(),
            final(self).output() == old(self).output().push(byte),
    {
        self.pending.push(byte);
    }

    /// Hands the queued bytes to the caller, oldest first, and empties the queue.
    pub fn take_pending(&mut self) -> (r: Vec<u8>)
        ensures
            r@ == old(self).output(),
            final(self).address() == old(self).address(),
            final(self).output() == Seq::<u8>::empty(),
    {
        let mut out: Vec<u8> = Vec::new();
        std::mem::swap(&mut out, &mut self.pending);
        out
    }

    /// Queues the bytes of `string`.
    pub fn write(&mut self, string: &str)
        ensures
            final(self).address() == old(self).address(),
            final(self).output() == old(self).output() + string.spec_bytes(),
    {
        let bytes = string.as_bytes();
        let mut i: usize = 0;
        while i < bytes.len()
            invariant
                i <= bytes@.len(),
                bytes@ == string.spec_bytes(),
                self.address() == old(self).address(),
                self.output() == old(self).output() + bytes@.subrange(0, i as int),
            decreases bytes@.len() - i,
        {
            self.put(bytes[i]);
            i += 1;
            assert(self.output() =~= old(self).output() + bytes@.subrange(0, i as int));
        }
        assert(bytes@.subrange(0, bytes@.len() as int) =~= bytes@);
    }

    /// Queues the bytes of `string` and a line feed.
    pub fn writeln(&mut self, string: &str)
        ensures
            final(self).address() == old(self).address(),
            final(self).output() == old(self).output() + string.spec_bytes() + seq![10u8],
    {
        self.write(string);
        self.put(10u8);
        assert(self.output() =~= old(self).output() + string.spec_bytes() + seq![10u8]);
    }

    /// Queues `address` as ` 0x` followed by 4, 8 or 16 hexadecimal digits,
    /// as many as its magnitude needs, and a space.
    pub fn write_address(&mut self, address: usize)
        ensures
            final(self).address() == old(self).address(),
            final(self).output() == old(self).output() + address_token(address as u64),
    {
        self.put(32u8);
        self.put(48u8);
        self.put(120u8);
        let a: u64 = address as u64;
        let width: usize = if a < 65536 {
            4
        } else if a < 4294967296 {
            8
        } else {
            16
        };
        let ghost head = old(self).output() + seq![32u8, 48u8, 120u8];
        assert(self.output() =~= head);
        let mut k: usize = 0;
        while k < width
            invariant
                k <= width,
                width == address_width(a),
                a == address as u64,
                self.address() == old(self).address(),
                self.output() == head + hex_digits(a, width as int).subrange(0, k as int),
            decreases width - k,
        {
            self.put(hex_quartet_digit(address, width - 1 - k));
            k += 1;
            assert(self.output() =~= head + hex_digits(a, width as int).subrange(0, k as int));
        }
        self.put(32u8);
        assert(hex_digits(a, width as int).subrange(0, width as int) =~= hex_digits(
            a,
            width as int,
        ));
        assert(self.output() =~= old(self).output() + address_token(a));
    }
}

} // verus!
