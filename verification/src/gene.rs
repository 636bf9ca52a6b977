//! Genes as sequences of codons, each of three nucleotides, with searches
//! for a codon and a parser for the letters `A`, `C`, `G` and `T`.
use bitvec::vec::BitVec;
use vstd::prelude::*;
use vstd::string::StringSliceAdditionalSpecFns;

verus! {

/// A bit vector of bitvec. The contracts see what it holds through
/// `bits_of` only.
#[verifier::external_body]
pub struct Bits {
    inner: BitVec,
}

/// The bits that a bit vector holds, the first one first.
pub uninterp spec fn bits_of(bits: Bits) -> Seq<bool>;

/// A bit vector without bits: `BitVec::new` of bitvec.
#[verifier::external_body]
fn no_bits() -> (bits: Bits)
    ensures
        bits_of(bits) == Seq::<bool>::empty(),
{
    Bits { inner: BitVec::new() }
}

/// Adds a bit at the end: `BitVec::push` of bitvec, which refuses a vector
/// that is as long as it can get. The contract says that the vector then
/// holds what it held, followed by the bit.
#[verifier::external_body]
fn push_bit(bits: &mut Bits, bit: bool)
    requires
        bits_of(*old(bits)).len() < 0x1000_0000,
    ensures
        bits_of(*final(bits)) == bits_of(*old(bits)).push(bit),
{
    bits.inner.push(bit)
}

/// The number of bits: `len` of bitvec's bit slices.
#[verifier::external_body]
fn count_bits(bits: &Bits) -> (count: usize)
    ensures
        count == bits_of(*bits).len(),
{
    bits.inner.len()
}

/// The bit at position `at`: indexing of bitvec's bit slices, which
/// refuses a position past the end.
#[verifier::external_body]
fn bit_at(bits: &Bits, at: usize) -> (bit: bool)
    requires
        at < bits_of(*bits).len(),
    ensures
        bit == bits_of(*bits)[at as int],
{
    bits.inner[at]
}

impl Bits {
    /// The bit vector that holds the given bits.
    pub fn from_bools(values: &Vec<bool>) -> (bits: Bits)
        requires
            values@.len() < 0x1000_0000,
        ensures
            bits_of(bits) == values@,
    {
        let mut bits = no_bits();
        let mut i: usize = 0;
        while i < values.len()
            invariant
                0 <= i <= values@.len(),
                values@.len() < 0x1000_0000,
                bits_of(bits) == values@.take(i as int),
            decreases values@.len() - i,
        {
            push_bit(&mut bits, values[i]);
            assert(values@.take(i + 1) =~= values@.take(i as int).push(values@[i as int]));
            i += 1;
        }
        assert(values@.take(values@.len() as int) =~= values@);
        bits
    }

    /// The bits that the bit vector holds.
    pub fn to_bools(&self) -> (values: Vec<bool>)
        ensures
            values@ == bits_of(*self),
    {
        let count = count_bits(self);
        let mut values: Vec<bool> = Vec::new();
        let mut i: usize = 0;
        while i < count
            invariant
                0 <= i <= count,
                count == bits_of(*self).len(),
                values@ == bits_of(*self).take(i as int),
            decreases count - i,
        {
            values.push(bit_at(self, i));
            assert(bits_of(*self).take(i + 1) =~= bits_of(*self).take(i as int).push(bits_of(*self)[i as int]));
            i += 1;
        }
        assert(bits_of(*self).take(count as int) =~= bits_of(*self));
        values
    }
}

/// # Nucleotide
/// A nucleotide of a gene.
#[derive(Clone, Copy, Debug, PartialEq, Eq, PartialOrd, Ord, Structural)]
pub enum Nucleotide {
    Adenine,
    Cytosine,
    Guanine,
    Thymine,
}

impl Nucleotide {
    /// The number of the nucleotide, which its two bits write out.
    pub open spec fn code(self) -> int {
        match self {
            Nucleotide::Adenine => 0,
            Nucleotide::Cytosine => 1,
            Nucleotide::Guanine => 2,
            Nucleotide::Thymine => 3,
        }
    }

    /// The upper-case letter of the nucleotide.
    pub open spec fn letter(self) -> char {
        match self {
            Nucleotide::Adenine => 'A',
            Nucleotide::Cytosine => 'C',
            Nucleotide::Guanine => 'G',
            Nucleotide::Thymine => 'T',
        }
    }

    /// The nucleotide that the byte names as a letter of either case.
    pub open spec fn of_byte(b: u8) -> Option<Nucleotide> {
        if b == 65 || b == 97 {
            Some(Nucleotide::Adenine)
        } else if b == 67 || b == 99 {
            Some(Nucleotide::Cytosine)
        } else if b == 71 || b == 103 {
            Some(Nucleotide::Guanine)
        } else if b == 84 || b == 116 {
            Some(Nucleotide::Thymine)
        } else {
            None
        }
    }

    /// Convert a nucleotide to a bitvector of two bits, the high one first.
    pub fn to_bits(&self) -> (bits: Bits)
        ensures
            bits_of(bits) == seq![self.code() >= 2, self.code() % 2 == 1],
    {
        let (high, low) = match self {
            Nucleotide::Adenine => (false, false),
            Nucleotide::Cytosine => (false, true),
            Nucleotide::Guanine => (true, false),
            Nucleotide::Thymine => (true, true),
        };
        let mut bits = no_bits();
        push_bit(&mut bits, high);
        push_bit(&mut bits, low);
        assert(bits_of(bits) =~= seq![self.code() >= 2, self.code() % 2 == 1]);
        bits
    }

    /// Convert a nucleotide to a character.
    pub fn to_letter(&self) -> (c: char)
        ensures
            c == self.letter(),
    {
        match self {
            Nucleotide::Adenine => 'A',
            Nucleotide::Cytosine => 'C',
            Nucleotide::Guanine => 'G',
            Nucleotide::Thymine => 'T',
        }
    }

    /// Convert a bitvector to a nucleotide. Returns `None` if the
    /// bitvector does not hold two bits.
    pub fn from_bits(bv: Bits) -> (result: Option<Nucleotide>)
        ensures
            result.is_some() <==> bits_of(bv).len() == 2,
            result matches Some(n) ==> bits_of(bv) == seq![n.code() >= 2, n.code() % 2 == 1],
    {
        if count_bits(&bv) != 2 {
            return None;
        }
        let found = match (bit_at(&bv, 0), bit_at(&bv, 1)) {
            (false, false) => Nucleotide::Adenine,
            (false, true) => Nucleotide::Cytosine,
            (true, false) => Nucleotide::Guanine,
            (true, true) => Nucleotide::Thymine,
        };
        assert(bits_of(bv) =~= seq![found.code() >= 2, found.code() % 2 == 1]);
        Some(found)
    }

    /// Convert a character to a nucleotide. Returns `None` if the character
    /// is none of the four letters, in either case.
    pub fn from_letter(c: char) -> (result: Option<Nucleotide>)
        ensures
            result == (if c == 'A' || c == 'a' {
                Some(Nucleotide::Adenine)
            } else if c == 'C' || c == 'c' {
                Some(Nucleotide::Cytosine)
            } else if c == 'G' || c == 'g' {
                Some(Nucleotide::Guanine)
            } else if c == 'T' || c == 't' {
                Some(Nucleotide::Thymine)
            } else {
                None
            }),
    {
        if c == 'A' || c == 'a' {
            Some(Nucleotide::Adenine)
        } else if c == 'C' || c == 'c' {
            Some(Nucleotide::Cytosine)
        } else if c == 'G' || c == 'g' {
            Some(Nucleotide::Guanine)
        } else if c == 'T' || c == 't' {
            Some(Nucleotide::Thymine)
        } else {
            None
        }
    }

    /// The number of the nucleotide.
    fn number(&self) -> (n: u8)
        ensures
            n == self.code(),
    {
        match self {
            Nucleotide::Adenine => 0,
            Nucleotide::Cytosine => 1,
            Nucleotide::Guanine => 2,
            Nucleotide::Thymine => 3,
        }
    }
}

/// Three nucleotides in a row.
#[derive(Clone, Copy, Debug, PartialEq, Eq, PartialOrd, Ord, Structural)]
pub struct Codon {
    pub first: Nucleotide,
    pub second: Nucleotide,
    pub third: Nucleotide,
}

/// Adds a character at the end of a string: `String::push` of std. The
/// contract says that the string then holds what it held, followed by the
/// character.
#[verifier::external_body]
fn push_letter(text: &mut String, c: char)
    ensures
        final(text)@ == old(text)@.push(c),
{
    text.push(c)
}

/// Sorts the numbers: `sort` of std's slices. The contract says that the
/// numbers then stand in ascending order and are the same numbers, each as
/// often as before.
#[verifier::external_body]
fn sort_ranks(ranks: &mut Vec<u8>)
    ensures
        final(ranks)@.to_multiset() == old(ranks)@.to_multiset(),
        forall|i: int, j: int| 0 <= i <= j < final(ranks)@.len() ==> final(ranks)@[i] <= final(ranks)@[j],
{
    ranks.sort()
}

impl Codon {
    /// The place of the codon in the order of codons: the first nucleotide
    /// counts most, the third least.
    pub open spec fn rank(self) -> int {
        self.first.code() * 16 + self.second.code() * 4 + self.third.code()
    }

    pub fn from_nucleotide_vec(nv: Vec<Nucleotide>) -> (codon: Codon)
        requires
            nv@.len() >= 3,
        ensures
            codon == (Codon { first: nv@[0], second: nv@[1], third: nv@[2] }),
    {
        Codon { first: nv[0], second: nv[1], third: nv[2] }
    }

    pub fn to_nucleotide_vec(&self) -> (nv: Vec<Nucleotide>)
        ensures
            nv@ == seq![self.first, self.second, self.third],
    {
        let mut nv = Vec::new();
        nv.push(self.first);
        nv.push(self.second);
        nv.push(self.third);
        assert(nv@ =~= seq![self.first, self.second, self.third]);
        nv
    }

    /// The three letters of the codon.
    pub fn to_string(&self) -> (text: String)
        ensures
            text@ == seq![self.first.letter(), self.second.letter(), self.third.letter()],
    {
        let mut text = String::new();
        push_letter(&mut text, self.first.to_letter());
        push_letter(&mut text, self.second.to_letter());
        push_letter(&mut text, self.third.to_letter());
        assert(text@ =~= seq![self.first.letter(), self.second.letter(), self.third.letter()]);
        text
    }

    /// The place of the codon in the order of codons.
    fn place(&self) -> (r: u8)
        ensures
            r == self.rank(),
    {
        self.first.number() * 16 + self.second.number() * 4 + self.third.number()
    }

    /// Two codons of the same rank are the same codon.
    pub proof fn lemma_rank_tells_apart(self, other: Codon)
        requires
            self.rank() == other.rank(),
        ensures
            self == other,
    {
    }
}

/// A gene: its codons in order.
pub struct Gene {
    pub codons: Vec<Codon>,
}

impl Gene {
    pub fn from_codon_vec(cv: Vec<Codon>) -> (gene: Gene)
        ensures
            gene.codons == cv,
    {
        Self { codons: cv }
    }

    /// Whether `key` is a codon of the gene, looking at one after the other.
    pub fn linear_contains(&self, key: Codon) -> (found: bool)
        ensures
            found == self.codons@.contains(key),
    {
        let mut i: usize = 0;
        while i < self.codons.len()
            invariant
                0 <= i <= self.codons@.len(),
                forall|k: int| 0 <= k < i ==> self.codons@[k] != key,
            decreases self.codons@.len() - i,
        {
            if self.codons[i] == key {
                return true;
            }
            i += 1;
        }
        false
    }

    /// Whether `key` is a codon of the gene, looking it up in a sorted copy
    /// by halving the range in which it can stand.
    pub fn binary_contains(&self, key: Codon) -> (found: bool)
        ensures
            found == self.codons@.contains(key),
    {
        let mut ranks: Vec<u8> = Vec::new();
        let mut i: usize = 0;
        while i < self.codons.len()
            invariant
                0 <= i <= self.codons@.len(),
                ranks@.len() == i,
                forall|k: int| 0 <= k < i ==> ranks@[k] == (#[trigger] self.codons@[k]).rank(),
            decreases self.codons@.len() - i,
        {
            ranks.push(self.codons[i].place());
            i += 1;
        }
        let ghost unsorted = ranks@;
        sort_ranks(&mut ranks);
        let wanted = key.place();
        let mut low: usize = 0;
        let mut high: usize = ranks.len();
        let mut found = false;
        while low < high && !found
            invariant
                0 <= low <= high <= ranks@.len(),
                forall|a: int, b: int| 0 <= a <= b < ranks@.len() ==> ranks@[a] <= ranks@[b],
                forall|k: int| 0 <= k < low ==> ranks@[k] < wanted,
                forall|k: int| high <= k < ranks@.len() ==> ranks@[k] > wanted,
                found ==> ranks@.contains(wanted),
            decreases high - low + (if found { 0int } else { 1int }),
        {
            let middle: usize = low + (high - low) / 2;
            if ranks[middle] < wanted {
                low = middle + 1;
            } else if ranks[middle] > wanted {
                high = middle;
            } else {
                found = true;
            }
        }
        proof {
            unsorted.to_multiset_ensures();
            ranks@.to_multiset_ensures();
            assert(ranks@.to_multiset().count(wanted) == unsorted.to_multiset().count(wanted));
            assert(ranks@.contains(wanted) <==> unsorted.contains(wanted));
            if unsorted.contains(wanted) {
                let k = choose|k: int| 0 <= k < unsorted.len() && unsorted[k] == wanted;
                self.codons@[k].lemma_rank_tells_apart(key);
            }
            if self.codons@.contains(key) {
                let k = choose|k: int| 0 <= k < self.codons@.len() && self.codons@[k] == key;
                assert(unsorted[k] == wanted);
            }
            if !found {
                if ranks@.contains(wanted) {
                    let k = choose|k: int| 0 <= k < ranks@.len() && ranks@[k] == wanted;
                    assert(k < low || k >= high);
                }
            }
        }
        found
    }
}

/// The codon that the three bytes from position `at` on spell.
pub open spec fn codon_at(input: Seq<u8>, at: int) -> Codon {
    Codon {
        first: Nucleotide::of_byte(input[at]).unwrap(),
        second: Nucleotide::of_byte(input[at + 1]).unwrap(),
        third: Nucleotide::of_byte(input[at + 2]).unwrap(),
    }
}

/// Every byte before position `n` is a nucleotide letter.
pub open spec fn all_letters(input: Seq<u8>, n: int) -> bool {
    forall|i: int| 0 <= i < n ==> Nucleotide::of_byte(#[trigger] input[i]).is_some()
}

/// Parse a nucleotide letter, which is A, C, G, or T, including lowercase
/// variants: the letter at the start of `input`, if there is one.
pub fn parse_nucleotide_letter(input: &str) -> (result: Option<char>)
    ensures
        result.is_some() <==> input.spec_bytes().len() > 0 && Nucleotide::of_byte(input.spec_bytes()[0]).is_some(),
        result matches Some(c) ==> c == input.spec_bytes()[0] as char,
{
    let bytes = input.as_bytes();
    if bytes.len() == 0 {
        return None;
    }
    let b = bytes[0];
    if b == 65 || b == 97 || b == 67 || b == 99 || b == 71 || b == 103 || b == 84 || b == 116 {
        Some(b as char)
    } else {
        None
    }
}

/// Parse a nucleotide: the one that the letter at the start of `input` names.
pub fn parse_nucleotide(input: &str) -> (result: Option<Nucleotide>)
    ensures
        result == (if input.spec_bytes().len() > 0 {
            Nucleotide::of_byte(input.spec_bytes()[0])
        } else {
            None
        }),
{
    match parse_nucleotide_letter(input) {
        Some(token) => Nucleotide::from_letter(token),
        None => None,
    }
}

/// The nucleotide that the byte names, if any.
fn nucleotide_of(b: u8) -> (result: Option<Nucleotide>)
    ensures
        result == Nucleotide::of_byte(b),
{
    if b == 65 || b == 97 {
        Some(Nucleotide::Adenine)
    } else if b == 67 || b == 99 {
        Some(Nucleotide::Cytosine)
    } else if b == 71 || b == 103 {
        Some(Nucleotide::Guanine)
    } else if b == 84 || b == 116 {
        Some(Nucleotide::Thymine)
    } else {
        None
    }
}

/// The codon that the three bytes from position `at` on spell, if they are
/// three nucleotide letters.
fn codon_from(bytes: &[u8], at: usize) -> (result: Option<Codon>)
    requires
        at <= bytes@.len(),
    ensures
        result.is_some() <==> at + 3 <= bytes@.len() && forall|i: int|
            at <= i < at + 3 ==> Nucleotide::of_byte(#[trigger] bytes@[i]).is_some(),
        result matches Some(codon) ==> codon == codon_at(bytes@, at as int),
{
    if bytes.len() - at < 3 {
        return None;
    }
    match (nucleotide_of(bytes[at]), nucleotide_of(bytes[at + 1]), nucleotide_of(bytes[at + 2])) {
        (Some(first), Some(second), Some(third)) => Some(Codon { first, second, third }),
        _ => None,
    }
}

/// Parse a codon: the three nucleotides that the first three letters of
/// `input` name.
pub fn parse_codon(input: &str) -> (result: Option<Codon>)
    ensures
        result.is_some() <==> input.spec_bytes().len() >= 3 && all_letters(input.spec_bytes(), 3),
        result matches Some(codon) ==> codon == codon_at(input.spec_bytes(), 0),
{
    let bytes = input.as_bytes();
    let result = codon_from(bytes, 0);
    proof {
        if result.is_some() {
            assert(all_letters(bytes@, 3));
        }
        if bytes@.len() >= 3 && all_letters(bytes@, 3) {
            assert(result.is_some());
        }
    }
    result
}

/// Parse a gene, as one or more codons: as many as stand at the start of
/// `input` one after the other. Returns the gene and the number of bytes it
/// was read from, or `None` if `input` does not start with a codon.
pub fn parse_gene(input: &str) -> (result: Option<(Gene, usize)>)
    ensures
        match result {
            Some((gene, used)) => {
                &&& used == gene.codons@.len() * 3
                &&& gene.codons@.len() >= 1
                &&& used <= input.spec_bytes().len()
                &&& all_letters(input.spec_bytes(), used as int)
                &&& forall|k: int|
                    0 <= k < gene.codons@.len() ==> #[trigger] gene.codons@[k] == codon_at(input.spec_bytes(), 3 * k)
                &&& !(used + 3 <= input.spec_bytes().len() && all_letters(input.spec_bytes(), used + 3))
            },
            None => !(input.spec_bytes().len() >= 3 && all_letters(input.spec_bytes(), 3)),
        },
{
    let bytes = input.as_bytes();
    let mut codons: Vec<Codon> = Vec::new();
    let mut at: usize = 0;
    let size = bytes.len();
    loop
        invariant
            bytes@ == input.spec_bytes(),
            size == bytes@.len(),
            at == codons@.len() * 3,
            at <= bytes@.len(),
            all_letters(bytes@, at as int),
            forall|k: int| 0 <= k < codons@.len() ==> #[trigger] codons@[k] == codon_at(bytes@, 3 * k),
        decreases bytes@.len() - at,
    {
        match codon_from(bytes, at) {
            Some(codon) => {
                assert(at + 3 <= bytes@.len());
                codons.push(codon);
                at += 3;
            },
            None => {
                proof {
                    if at + 3 <= bytes@.len() && all_letters(bytes@, at + 3) {
                        assert forall|i: int| at <= i < at + 3 implies Nucleotide::of_byte(
                            #[trigger] bytes@[i],
                        ).is_some() by {}
                    }
                }
                if codons.len() == 0 {
                    return None;
                }
                return Some((Gene { codons }, at));
            },
        }
    }
}

} // verus!
