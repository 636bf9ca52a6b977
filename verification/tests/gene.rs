use classic_computer_science_problems::gene::{
    parse_codon, parse_gene, parse_nucleotide, parse_nucleotide_letter, Bits, Codon, Gene, Nucleotide,
};
use Nucleotide::{Adenine, Cytosine, Guanine, Thymine};

fn codon(first: Nucleotide, second: Nucleotide, third: Nucleotide) -> Codon {
    Codon { first, second, third }
}

fn bits(values: &[bool]) -> Bits {
    Bits::from_bools(&values.to_vec())
}

fn bools(bits: &Bits) -> Vec<bool> {
    bits.to_bools()
}

#[test]
fn bits_keep_their_order() {
    let values = vec![true, false, false, true, true, false, true, false, true];
    assert_eq!(Bits::from_bools(&values).to_bools(), values);
    assert_eq!(Bits::from_bools(&vec![]).to_bools(), Vec::<bool>::new());
}

#[test]
fn nucleotides_have_two_bits() {
    assert_eq!(bools(&Adenine.to_bits()), vec![false, false]);
    assert_eq!(bools(&Cytosine.to_bits()), vec![false, true]);
    assert_eq!(bools(&Guanine.to_bits()), vec![true, false]);
    assert_eq!(bools(&Thymine.to_bits()), vec![true, true]);
    assert_eq!(Guanine.to_bits().to_bools().len(), 2);
}

#[test]
fn bits_give_back_the_nucleotide() {
    for n in [Adenine, Cytosine, Guanine, Thymine] {
        assert_eq!(Nucleotide::from_bits(n.to_bits()), Some(n));
    }
    assert_eq!(Nucleotide::from_bits(bits(&[false, true])), Some(Cytosine));
    assert_eq!(Nucleotide::from_bits(bits(&[true, false])), Some(Guanine));
    assert_eq!(Nucleotide::from_bits(bits(&[true])), None);
    assert_eq!(Nucleotide::from_bits(bits(&[])), None);
    assert_eq!(Nucleotide::from_bits(bits(&[true, false, true])), None);
}

#[test]
fn letters_give_back_the_nucleotide() {
    assert_eq!(Adenine.to_letter(), 'A');
    assert_eq!(Cytosine.to_letter(), 'C');
    assert_eq!(Guanine.to_letter(), 'G');
    assert_eq!(Thymine.to_letter(), 'T');
    for n in [Adenine, Cytosine, Guanine, Thymine] {
        assert_eq!(Nucleotide::from_letter(n.to_letter()), Some(n));
        assert_eq!(Nucleotide::from_letter(n.to_letter().to_ascii_lowercase()), Some(n));
    }
    assert_eq!(Nucleotide::from_letter('x'), None);
    assert_eq!(Nucleotide::from_letter('U'), None);
}

#[test]
fn codon_is_made_of_the_first_three_nucleotides() {
    let made = Codon::from_nucleotide_vec(vec![Guanine, Adenine, Thymine, Cytosine]);
    assert_eq!(made, codon(Guanine, Adenine, Thymine));
    assert_eq!(made.to_nucleotide_vec(), vec![Guanine, Adenine, Thymine]);
    assert_eq!(made.to_string(), "GAT");
}

#[test]
fn gene_searches_agree() {
    let gene = Gene::from_codon_vec(vec![
        codon(Thymine, Thymine, Thymine),
        codon(Adenine, Cytosine, Guanine),
        codon(Guanine, Adenine, Thymine),
        codon(Adenine, Adenine, Adenine),
        codon(Adenine, Cytosine, Guanine),
    ]);
    let firsts = [Adenine, Cytosine, Guanine, Thymine];
    for first in firsts {
        for second in firsts {
            for third in firsts {
                let key = codon(first, second, third);
                assert_eq!(gene.linear_contains(key), gene.codons.contains(&key));
                assert_eq!(gene.binary_contains(key), gene.codons.contains(&key));
            }
        }
    }
    assert!(gene.binary_contains(codon(Adenine, Adenine, Adenine)));
    assert!(gene.binary_contains(codon(Thymine, Thymine, Thymine)));
    assert!(gene.linear_contains(codon(Guanine, Adenine, Thymine)));
    assert!(!gene.binary_contains(codon(Guanine, Adenine, Adenine)));
}

#[test]
fn empty_gene_holds_no_codon() {
    let gene = Gene::from_codon_vec(vec![]);
    assert!(!gene.linear_contains(codon(Adenine, Adenine, Adenine)));
    assert!(!gene.binary_contains(codon(Adenine, Adenine, Adenine)));
}

#[test]
fn nucleotide_letter_is_parsed_in_either_case() {
    assert_eq!(parse_nucleotide_letter("ACGT"), Some('A'));
    assert_eq!(parse_nucleotide_letter("t"), Some('t'));
    assert_eq!(parse_nucleotide_letter("xA"), None);
    assert_eq!(parse_nucleotide_letter(""), None);
    assert_eq!(parse_nucleotide("gA"), Some(Guanine));
    assert_eq!(parse_nucleotide("C"), Some(Cytosine));
    assert_eq!(parse_nucleotide("é"), None);
    assert_eq!(parse_nucleotide(""), None);
}

#[test]
fn codon_is_parsed_from_three_letters() {
    assert_eq!(parse_codon("ACGT"), Some(codon(Adenine, Cytosine, Guanine)));
    assert_eq!(parse_codon("tga"), Some(codon(Thymine, Guanine, Adenine)));
    assert_eq!(parse_codon("AC"), None);
    assert_eq!(parse_codon("ACx"), None);
    assert_eq!(parse_codon(""), None);
}

#[test]
fn gene_is_parsed_as_long_as_codons_follow() {
    let (gene, used) = parse_gene("ACGTTTga").unwrap();
    assert_eq!(used, 6);
    assert_eq!(gene.codons, vec![codon(Adenine, Cytosine, Guanine), codon(Thymine, Thymine, Thymine)]);
    let (gene, used) = parse_gene("acgXacg").unwrap();
    assert_eq!(used, 3);
    assert_eq!(gene.codons, vec![codon(Adenine, Cytosine, Guanine)]);
    let (gene, used) = parse_gene("ACGTACGTACGT").unwrap();
    assert_eq!(used, 12);
    assert_eq!(gene.codons.len(), 4);
    assert_eq!(gene.codons[3], codon(Cytosine, Guanine, Thymine));
}

#[test]
fn gene_needs_one_codon() {
    assert!(parse_gene("").is_none());
    assert!(parse_gene("AC").is_none());
    assert!(parse_gene("xACG").is_none());
}
