//! Write-ahead log entries: their sequence numbers, format version and
//! FNV-1a checksums.
//!
//! Each entry is stored as one line; its checksum is the FNV-1a 64-bit hash
//! of the serialized `(seq, entry)` pair, written as 16 lowercase hex
//! digits. Entries without a checksum come from older logs and are trusted.
use vstd::prelude::*;
use vstd::string::*;
use vstd::wrapping::u64_specs::wrapping_mul;

use crate::types::WalEntryType;

verus! {

/// On-disk format version of log entries.
pub const WAL_VERSION: u8 = 1;

/// FNV-1a 64-bit offset basis.
pub const FNV_OFFSET: u64 = 0xcbf2_9ce4_8422_2325;

/// FNV-1a 64-bit prime.
pub const FNV_PRIME: u64 = 0x0000_0100_0000_01b3;

/// The FNV-1a 64-bit hash of `bytes`: starting from the offset basis, each
/// byte is xor-ed in and the hash multiplied by the prime, modulo 2^64.
pub open spec fn fnv_spec(bytes: Seq<u8>) -> u64
    decreases bytes.len(),
{
    if bytes.len() == 0 {
        FNV_OFFSET
    } else {
        wrapping_mul(fnv_spec(bytes.drop_last()) ^ (bytes.last() as u64), FNV_PRIME)
    }
}

/// FNV-1a 64-bit hash (see [`fnv_spec`]).
pub fn fnv1a64(bytes: &[u8]) -> (h: u64)
    ensures
        h == fnv_spec(bytes@),
{
    let mut hash: u64 = FNV_OFFSET;
    let mut i: usize = 0;
    assert(bytes@.take(0) =~= Seq::<u8>::empty());
    while i < bytes.len()
        invariant
            i <= bytes@.len(),
            hash == fnv_spec(bytes@.take(i as int)),
        decreases bytes@.len() - i,
    {
        assert(bytes@.take(i + 1).drop_last() =~= bytes@.take(i as int));
        assert(bytes@.take(i + 1).last() == bytes@[i as int]);
        hash = hash ^ (bytes[i] as u64);
        hash = hash.wrapping_mul(FNV_PRIME);
        i = i + 1;
    }
    assert(bytes@.take(i as int) =~= bytes@);
    hash
}

/// The lowercase hex digit of `d` (0 to 15).
pub open spec fn hex_digit(d: u64) -> char {
    if d < 10 {
        (d + 48) as char
    } else {
        (d + 87) as char
    }
}

/// Hex digit `i` of `x`, counting from the most significant (0 to 15).
pub open spec fn nibble(x: u64, i: int) -> u64 {
    (x >> ((60 - 4 * i) as u64)) & 15
}

/// `x` as 16 lowercase hex digits, most significant first.
pub open spec fn hex16(x: u64) -> Seq<char> {
    Seq::new(16, |i: int| hex_digit(nibble(x, i)))
}

/// The checksum text of a serialized entry body.
pub open spec fn checksum_text(body: Seq<u8>) -> Seq<char> {
    hex16(fnv_spec(body))
}

/// The one-character text of hex digit `d`.
fn digit_text(d: u64) -> (s: &'static str)
    requires
        d < 16,
    ensures
        s@ == seq![hex_digit(d)],
{
    proof {
        reveal_strlit("0");
        reveal_strlit("1");
        reveal_strlit("2");
        reveal_strlit("3");
        reveal_strlit("4");
        reveal_strlit("5");
        reveal_strlit("6");
        reveal_strlit("7");
        reveal_strlit("8");
        reveal_strlit("9");
        reveal_strlit("a");
        reveal_strlit("b");
        reveal_strlit("c");
        reveal_strlit("d");
        reveal_strlit("e");
        reveal_strlit("f");
    }
    if d == 0 {
        "0"
    } else if d == 1 {
        "1"
    } else if d == 2 {
        "2"
    } else if d == 3 {
        "3"
    } else if d == 4 {
        "4"
    } else if d == 5 {
        "5"
    } else if d == 6 {
        "6"
    } else if d == 7 {
        "7"
    } else if d == 8 {
        "8"
    } else if d == 9 {
        "9"
    } else if d == 10 {
        "a"
    } else if d == 11 {
        "b"
    } else if d == 12 {
        "c"
    } else if d == 13 {
        "d"
    } else if d == 14 {
        "e"
    } else {
        "f"
    }
}

/// `x` as 16 lowercase hex digits (see [`hex16`]).
pub fn to_hex16(x: u64) -> (s: String)
    ensures
        s@ == hex16(x),
{
    let mut s = String::new();
    let mut i: u64 = 0;
    while i < 16
        invariant
            i <= 16,
            s@ == hex16(x).take(i as int),
        decreases 16 - i,
    {
        let shift: u64 = 60 - 4 * i;
        let d = (x >> shift) & 15;
        assert(d < 16) by (bit_vector)
            requires
                d == (x >> shift) & 15,
        ;
        s.append(digit_text(d));
        assert(s@ =~= hex16(x).take(i + 1));
        i = i + 1;
    }
    assert(hex16(x).take(16) =~= hex16(x));
    s
}

/// The checksum text of a serialized entry body (see [`checksum_text`]).
pub fn checksum_of(body: &[u8]) -> (s: String)
    ensures
        s@ == checksum_text(body@),
{
    to_hex16(fnv1a64(body))
}

/// Mathematical content of a [`WalEntry`].
pub struct WalEntryView {
    pub seq: u64,
    pub version: u8,
    pub checksum: Option<Seq<char>>,
}

/// A single log entry: sequence number, format version, checksum (absent in
/// entries of older logs) and the logged command.
#[derive(Debug)]
pub struct WalEntry {
    seq: u64,
    version: u8,
    checksum: Option<String>,
    entry: WalEntryType,
}

impl View for WalEntry {
    type V = WalEntryView;

    closed spec fn view(&self) -> WalEntryView {
        WalEntryView {
            seq: self.seq,
            version: self.version,
            checksum: match self.checksum {
                Some(c) => Some(c@),
                None => None,
            },
        }
    }
}

impl WalEntry {
    /// The logged command.
    pub closed spec fn command(&self) -> WalEntryType {
        self.entry
    }

    /// A new entry of the current format version, without a checksum.
    pub fn new(seq: u64, entry: WalEntryType) -> (e: WalEntry)
        ensures
            e@ == (WalEntryView { seq, version: WAL_VERSION, checksum: None }),
            e.command() == entry,
    {
        WalEntry { seq, version: WAL_VERSION, checksum: None, entry }
    }

    /// An entry as read back from a log.
    pub fn from_parts(seq: u64, version: u8, checksum: Option<String>, entry: WalEntryType) -> (e: WalEntry)
        ensures
            e@.seq == seq,
            e@.version == version,
            e@.checksum == match checksum {
                Some(c) => Some(c@),
                None => None::<Seq<char>>,
            },
            e.command() == entry,
    {
        WalEntry { seq, version, checksum, entry }
    }

    /// Returns the sequence number.
    pub fn seq(&self) -> (r: u64)
        ensures
            r == self@.seq,
    {
        self.seq
    }

    /// Returns the format version.
    pub fn version(&self) -> (r: u8)
        ensures
            r == self@.version,
    {
        self.version
    }

    /// Returns the stored checksum, if any.
    pub fn checksum(&self) -> (r: Option<&str>)
        ensures
            match r {
                Some(c) => self@.checksum == Some(c@),
                None => self@.checksum is None,
            },
    {
        match &self.checksum {
            Some(c) => Some(c.as_str()),
            None => None,
        }
    }

    /// Returns the logged command.
    pub fn entry(&self) -> (r: &WalEntryType)
        ensures
            *r == self.command(),
    {
        &self.entry
    }

    /// Stamps the entry for writing: sequence number `seq`, the current
    /// format version, and the checksum of `body`, the serialized
    /// `(seq, entry)` pair.
    pub fn seal(&mut self, seq: u64, body: &[u8])
        ensures
            final(self)@ == sealed(seq, body@),
            final(self).command() == old(self).command(),
    {
        self.seq = seq;
        self.version = WAL_VERSION;
        self.checksum = Some(checksum_of(body));
    }

    /// Whether the stored checksum matches `body`, the serialized
    /// `(seq, entry)` pair of this entry (see [`checksum_ok`]).
    pub fn verify_checksum(&self, body: &[u8]) -> (b: bool)
        ensures
            b == checksum_ok(self@, body@),
    {
        match &self.checksum {
            Some(expected) => {
                let actual = checksum_of(body);
                actual == *expected
            },
            None => true,
        }
    }
}

/// Whether an entry read back from the log is replayed. `body` is the
/// serialized `(seq, entry)` pair of the entry, or `None` when it could not
/// be serialized: such an entry, and one whose checksum does not match its
/// body, is skipped.
pub fn accepts_entry(entry: &WalEntry, body: Option<&[u8]>) -> (b: bool)
    ensures
        b == (body matches Some(bd) && checksum_ok(entry@, bd@)),
{
    match body {
        Some(bd) => entry.verify_checksum(bd),
        None => false,
    }
}

/// An entry's stored checksum matches `body`; an entry without a checksum
/// (from an older log) is trusted.
pub open spec fn checksum_ok(v: WalEntryView, body: Seq<u8>) -> bool {
    match v.checksum {
        Some(c) => c == checksum_text(body),
        None => true,
    }
}

/// The view of an entry sealed with sequence number `seq` over `body`.
pub open spec fn sealed(seq: u64, body: Seq<u8>) -> WalEntryView {
    WalEntryView { seq, version: WAL_VERSION, checksum: Some(checksum_text(body)) }
}

/// Distinct values have distinct hex texts.
pub proof fn lemma_hex16_injective(x: u64, y: u64)
    requires
        hex16(x) == hex16(y),
    ensures
        x == y,
{
    assert forall|i: int| 0 <= i < 16 implies #[trigger] nibble(x, i) == nibble(y, i) by {
        let a = nibble(x, i);
        let b = nibble(y, i);
        let sh = (60 - 4 * i) as u64;
        assert(a < 16) by (bit_vector)
            requires
                a == (x >> sh) & 15,
        ;
        assert(b < 16) by (bit_vector)
            requires
                b == (y >> sh) & 15,
        ;
        assert(hex16(x)[i] == hex16(y)[i]);
        assert(hex16(x)[i] == hex_digit(nibble(x, i)));
        assert(hex16(y)[i] == hex_digit(nibble(y, i)));
        assert(hex_digit(a) == hex_digit(b));
        assert(hex_digit(a) as int == if a < 10 { a + 48 } else { a + 87 });
        assert(hex_digit(b) as int == if b < 10 { b + 48 } else { b + 87 });
    }
    assert(nibble(x, 0) == nibble(y, 0));
    assert(nibble(x, 1) == nibble(y, 1));
    assert(nibble(x, 2) == nibble(y, 2));
    assert(nibble(x, 3) == nibble(y, 3));
    assert(nibble(x, 4) == nibble(y, 4));
    assert(nibble(x, 5) == nibble(y, 5));
    assert(nibble(x, 6) == nibble(y, 6));
    assert(nibble(x, 7) == nibble(y, 7));
    assert(nibble(x, 8) == nibble(y, 8));
    assert(nibble(x, 9) == nibble(y, 9));
    assert(nibble(x, 10) == nibble(y, 10));
    assert(nibble(x, 11) == nibble(y, 11));
    assert(nibble(x, 12) == nibble(y, 12));
    assert(nibble(x, 13) == nibble(y, 13));
    assert(nibble(x, 14) == nibble(y, 14));
    assert(nibble(x, 15) == nibble(y, 15));
    assert(x == y) by (bit_vector)
        requires
            ((x >> 60u64) & 15) == ((y >> 60u64) & 15),
            ((x >> 56u64) & 15) == ((y >> 56u64) & 15),
            ((x >> 52u64) & 15) == ((y >> 52u64) & 15),
            ((x >> 48u64) & 15) == ((y >> 48u64) & 15),
            ((x >> 44u64) & 15) == ((y >> 44u64) & 15),
            ((x >> 40u64) & 15) == ((y >> 40u64) & 15),
            ((x >> 36u64) & 15) == ((y >> 36u64) & 15),
            ((x >> 32u64) & 15) == ((y >> 32u64) & 15),
            ((x >> 28u64) & 15) == ((y >> 28u64) & 15),
            ((x >> 24u64) & 15) == ((y >> 24u64) & 15),
            ((x >> 20u64) & 15) == ((y >> 20u64) & 15),
            ((x >> 16u64) & 15) == ((y >> 16u64) & 15),
            ((x >> 12u64) & 15) == ((y >> 12u64) & 15),
            ((x >> 8u64) & 15) == ((y >> 8u64) & 15),
            ((x >> 4u64) & 15) == ((y >> 4u64) & 15),
            ((x >> 0u64) & 15) == ((y >> 0u64) & 15),
    ;
}

/// An entry sealed over a body passes the checksum check against a body
/// exactly when the two bodies have the same FNV-1a hash: in particular
/// against its own body.
pub proof fn lemma_sealed_entry_check(seq: u64, written: Seq<u8>, read: Seq<u8>)
    ensures
        checksum_ok(sealed(seq, written), read) <==> fnv_spec(written) == fnv_spec(read),
        checksum_ok(sealed(seq, written), written),
{
    if checksum_ok(sealed(seq, written), read) {
        lemma_hex16_injective(fnv_spec(written), fnv_spec(read));
    }
}

} // verus!
