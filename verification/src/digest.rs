//! BLAKE3 digests: the bytes that go in and the hexadecimal text that comes out.
use vstd::prelude::*;
use vstd::string::*;

verus! {

/// The incremental hasher of the `blake3` crate.
#[verifier::external_type_specification]
#[verifier::external_body]
pub struct ExHasher(blake3::Hasher);

/// The bytes that a hasher has been given so far, in order.
pub uninterp spec fn hashed(hasher: blake3::Hasher) -> Seq<u8>;

/// The BLAKE3 hash of `bytes`, in lowercase hexadecimal.
pub uninterp spec fn blake3_hex(bytes: Seq<u8>) -> Seq<char>;

/// A lowercase hexadecimal digit.
pub open spec fn is_hex_digit(c: char) -> bool {
    ('0' <= c <= '9') || ('a' <= c <= 'f')
}

/// The text of a 256-bit hash: 64 lowercase hexadecimal digits.
pub open spec fn is_hex_hash(s: Seq<char>) -> bool {
    s.len() == 64 && forall|i: int| 0 <= i < s.len() ==> is_hex_digit(#[trigger] s[i])
}

/// `blake3::Hasher::new` makes a hasher for the regular hash function that has been given
/// nothing yet.
#[verifier::external_body]
fn new_hasher() -> (r: blake3::Hasher)
    ensures
        hashed(r) == Seq::<u8>::empty(),
{
    blake3::Hasher::new()
}

/// `blake3::Hasher::update` adds input bytes behind those it was given before.
#[verifier::external_body]
fn feed(hasher: &mut blake3::Hasher, bytes: &[u8])
    ensures
        hashed(*final(hasher)) == hashed(*old(hasher)) + bytes@,
{
    hasher.update(bytes);
}

/// `blake3::Hasher::finalize` hashes everything the hasher was given, and `blake3::Hash::to_hex`
/// writes the 32 bytes of that hash as 64 lowercase hexadecimal digits.
#[verifier::external_body]
fn finish_hex(hasher: &blake3::Hasher) -> (r: String)
    ensures
        r@ == blake3_hex(hashed(*hasher)),
        is_hex_hash(r@),
{
    hasher.finalize().to_hex().to_string()
}

/// A hash being computed over a stream of bytes, and the text that goes before its digits.
pub struct Digest {
    label: String,
    hasher: blake3::Hasher,
}

/// The hash text of `bytes` under a label: the label, then the digits.
pub open spec fn labelled(label: Seq<char>, bytes: Seq<u8>) -> Seq<char> {
    label + blake3_hex(bytes)
}

/// The UTF-8 bytes of a string.
pub open spec fn utf8(s: Seq<char>) -> Seq<u8> {
    vstd::utf8::encode_utf8(s)
}

impl Digest {
    /// The text that goes before the digits.
    pub closed spec fn label(&self) -> Seq<char> {
        self.label@
    }

    /// The bytes that have been given so far.
    pub closed spec fn bytes(&self) -> Seq<u8> {
        hashed(self.hasher)
    }

    /// Starts a hash whose first bytes are those of `domain`, which keeps hashes of different
    /// things apart.
    pub fn new(label: &str, domain: &str) -> (r: Digest)
        ensures
            r.label() == label@,
            r.bytes() == utf8(domain@),
    {
        let mut hasher = new_hasher();
        feed(&mut hasher, domain.as_bytes());
        assert(hashed(hasher) =~= utf8(domain@));
        Digest { label: label.to_owned(), hasher }
    }

    /// Adds bytes.
    pub fn update(&mut self, bytes: &[u8])
        ensures
            final(self).label() == old(self).label(),
            final(self).bytes() == old(self).bytes() + bytes@,
    {
        feed(&mut self.hasher, bytes);
    }

    /// Adds the UTF-8 bytes of a string.
    pub fn update_text(&mut self, s: &str)
        ensures
            final(self).label() == old(self).label(),
            final(self).bytes() == old(self).bytes() + utf8(s@),
    {
        self.update(s.as_bytes());
    }

    /// The hash text of everything that was added.
    pub fn finish(&self) -> (r: String)
        ensures
            r@ == labelled(self.label(), self.bytes()),
            exists|hex: Seq<char>| is_hex_hash(hex) && r@ == self.label() + hex,
    {
        let hex = finish_hex(&self.hasher);
        let mut out = self.label.clone();
        out.append(hex.as_str());
        assert(is_hex_hash(hex@) && out@ == self.label() + hex@);
        out
    }
}

// ---------------------------------------------------------------------------------------------
// Length-prefixed fields
// ---------------------------------------------------------------------------------------------

/// A 32-bit number in little-endian byte order.
pub open spec fn le32(n: u32) -> Seq<u8> {
    vstd::bytes::spec_u32_to_le_bytes(n)
}

/// A string as the low 32 bits of its length in bytes, then the bytes.
pub open spec fn field(s: Seq<char>) -> Seq<u8> {
    le32(utf8(s).len() as u32) + utf8(s)
}

/// One record of a hashed listing: a name, a one-byte kind tag and a content hash.
#[verifier::ext_equal]
pub struct Record {
    pub name: Seq<char>,
    pub tag: u8,
    pub hash: Seq<char>,
}

/// `u32-le(name length) || name || kind tag || u32-le(hash length) || hash`.
pub open spec fn record_bytes(r: Record) -> Seq<u8> {
    field(r.name) + seq![r.tag] + field(r.hash)
}

/// The records one behind the other.
pub open spec fn listing_bytes(records: Seq<Record>) -> Seq<u8>
    decreases records.len(),
{
    if records.len() == 0 {
        Seq::empty()
    } else {
        listing_bytes(records.drop_last()) + record_bytes(records.last())
    }
}

impl Digest {
    fn update_field(&mut self, s: &str)
        ensures
            final(self).label() == old(self).label(),
            final(self).bytes() == old(self).bytes() + field(s@),
    {
        let ghost before = self.bytes();
        let bytes = s.as_bytes();
        let length: u32 = #[verifier::truncate] (bytes.len() as u32);
        let prefix = vstd::bytes::u32_to_le_bytes(length);
        self.update(prefix.as_slice());
        self.update(bytes);
        assert(self.bytes() =~= before + field(s@));
    }

    /// Adds one record of a listing.
    pub fn update_record(&mut self, name: &str, tag: u8, hash: &str)
        ensures
            final(self).label() == old(self).label(),
            final(self).bytes() == old(self).bytes() + record_bytes(
                Record { name: name@, tag, hash: hash@ },
            ),
    {
        let ghost before = self.bytes();
        self.update_field(name);
        let one = [tag];
        self.update(one.as_slice());
        self.update_field(hash);
        assert(self.bytes() =~= before + record_bytes(Record { name: name@, tag, hash: hash@ }));
    }
}

// ---------------------------------------------------------------------------------------------
// A listing can be read back from its bytes
// ---------------------------------------------------------------------------------------------

/// Lengths that the 32-bit prefixes can hold.
pub open spec fn fits(r: Record) -> bool {
    utf8(r.name).len() < 0x1_0000_0000 && utf8(r.hash).len() < 0x1_0000_0000
}

proof fn lemma_split_equal(a: Seq<u8>, x: Seq<u8>, b: Seq<u8>, y: Seq<u8>)
    requires
        a + x == b + y,
        a.len() == b.len(),
    ensures
        a == b,
        x == y,
{
    assert(a =~= (a + x).take(a.len() as int));
    assert(b =~= (b + y).take(b.len() as int));
    assert(x =~= (a + x).skip(a.len() as int));
    assert(y =~= (b + y).skip(b.len() as int));
}

proof fn lemma_field_prefix(s: Seq<char>, x: Seq<u8>, t: Seq<char>, y: Seq<u8>)
    requires
        field(s) + x == field(t) + y,
        utf8(s).len() < 0x1_0000_0000,
        utf8(t).len() < 0x1_0000_0000,
    ensures
        s == t,
        x == y,
{
    let m = utf8(s).len() as u32;
    let n = utf8(t).len() as u32;
    vstd::bytes::lemma_auto_spec_u32_to_from_le_bytes();
    assert(field(s) + x =~= le32(m) + (utf8(s) + x));
    assert(field(t) + y =~= le32(n) + (utf8(t) + y));
    lemma_split_equal(le32(m), utf8(s) + x, le32(n), utf8(t) + y);
    assert(vstd::bytes::spec_u32_from_le_bytes(le32(m)) == m);
    assert(vstd::bytes::spec_u32_from_le_bytes(le32(n)) == n);
    lemma_split_equal(utf8(s), x, utf8(t), y);
    crate::text::lemma_utf8_injective(s, t);
}

proof fn lemma_record_prefix(a: Record, x: Seq<u8>, b: Record, y: Seq<u8>)
    requires
        record_bytes(a) + x == record_bytes(b) + y,
        fits(a),
        fits(b),
    ensures
        a == b,
        x == y,
{
    let p = seq![a.tag] + (field(a.hash) + x);
    let q = seq![b.tag] + (field(b.hash) + y);
    assert(record_bytes(a) + x =~= field(a.name) + p);
    assert(record_bytes(b) + y =~= field(b.name) + q);
    lemma_field_prefix(a.name, p, b.name, q);
    lemma_split_equal(seq![a.tag], field(a.hash) + x, seq![b.tag], field(b.hash) + y);
    assert(seq![a.tag][0] == seq![b.tag][0]);
    lemma_field_prefix(a.hash, x, b.hash, y);
}

proof fn lemma_listing_first(records: Seq<Record>)
    requires
        records.len() > 0,
    ensures
        listing_bytes(records) == record_bytes(records[0]) + listing_bytes(records.drop_first()),
    decreases records.len(),
{
    if records.len() == 1 {
        assert(records.drop_last() =~= Seq::empty());
        assert(records.drop_first() =~= Seq::empty());
        assert(listing_bytes(records) =~= record_bytes(records[0]) + listing_bytes(
            records.drop_first(),
        ));
    } else {
        lemma_listing_first(records.drop_last());
        assert(records.drop_last().drop_first() =~= records.drop_first().drop_last());
        assert(listing_bytes(records) =~= record_bytes(records[0]) + listing_bytes(
            records.drop_first(),
        ));
    }
}

/// The bytes of a listing determine it: no two different listings are hashed over the same bytes,
/// as long as every name and hash is shorter than 4 GiB.
pub proof fn law_listing_injective(a: Seq<Record>, b: Seq<Record>)
    requires
        forall|i: int| 0 <= i < a.len() ==> fits(#[trigger] a[i]),
        forall|i: int| 0 <= i < b.len() ==> fits(#[trigger] b[i]),
        listing_bytes(a) == listing_bytes(b),
    ensures
        a == b,
    decreases a.len(),
{
    vstd::bytes::lemma_auto_spec_u32_to_from_le_bytes();
    if a.len() == 0 || b.len() == 0 {
        if a.len() > 0 {
            lemma_listing_first(a);
            assert(listing_bytes(b).len() == 0);
            assert(record_bytes(a[0]).len() >= 1);
        }
        if b.len() > 0 {
            lemma_listing_first(b);
            assert(listing_bytes(a).len() == 0);
            assert(record_bytes(b[0]).len() >= 1);
        }
        assert(a =~= b);
    } else {
        lemma_listing_first(a);
        lemma_listing_first(b);
        lemma_record_prefix(
            a[0],
            listing_bytes(a.drop_first()),
            b[0],
            listing_bytes(b.drop_first()),
        );
        law_listing_injective(a.drop_first(), b.drop_first());
        assert(a =~= seq![a[0]] + a.drop_first());
        assert(b =~= seq![b[0]] + b.drop_first());
    }
}

/// Hash texts with labels that differ somewhere differ, whatever was hashed.
pub proof fn lemma_labels_differ(
    a: Seq<char>,
    b: Seq<char>,
    x: Seq<u8>,
    y: Seq<u8>,
    i: int,
)
    requires
        0 <= i < a.len(),
        i < b.len(),
        a[i] != b[i],
    ensures
        labelled(a, x) != labelled(b, y),
{
    assert(labelled(a, x)[i] == a[i]);
    assert(labelled(b, y)[i] == b[i]);
}

} // verus!
