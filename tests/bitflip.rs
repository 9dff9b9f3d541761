use bitsquatting::flipper::BitFlipper;
use bitsquatting::request::{bitflip_candidates, canonicalise, BitflipError, MyInfo};
use bitsquatting::result_map::{resolution_outcome, DomainData, IpAddress, ResultMap};

fn presentations(input: &str) -> Vec<String> {
    bitflip_candidates(input)
        .unwrap()
        .into_iter()
        .map(|c| c.presentation)
        .collect()
}

fn one_bit_apart(a: &[u8], b: &[u8]) -> bool {
    a.len() == b.len()
        && a.iter()
            .zip(b.iter())
            .map(|(x, y)| (x ^ y).count_ones())
            .sum::<u32>()
            == 1
}

#[test]
fn a_com_candidates() {
    let cands = bitflip_candidates("a.com").unwrap();
    assert!(cands.len() <= 32);
    let names: Vec<&str> = cands.iter().map(|c| c.presentation.as_str()).collect();
    assert_eq!(names.iter().filter(|n| **n == "c.com").count(), 1);
    assert_eq!(names.iter().filter(|n| **n == "e.com").count(), 1);
    assert!(!names.contains(&"a.com"));
    for c in &cands {
        assert!(one_bit_apart(&c.bytes, b"a.com"));
        assert_eq!(c.bytes[4], b'm');
        assert_eq!(c.presentation.as_bytes(), &c.bytes[..]);
    }
}

#[test]
fn a_com_skips_non_utf8_flips() {
    let cands = bitflip_candidates("a.com").unwrap();
    // flipping the high bit of any byte never gives UTF-8
    assert!(cands.len() <= 28);
    for c in &cands {
        assert!(c.bytes.iter().all(|b| *b < 0x80));
    }
}

#[test]
fn trailing_dot_kept() {
    let cands = bitflip_candidates("example.com.").unwrap();
    assert!(cands.iter().any(|c| c.presentation == "gxample.com."));
    for c in &cands {
        assert_eq!(*c.bytes.last().unwrap(), b'.');
        assert!(one_bit_apart(&c.bytes, b"example.com."));
    }
}

#[test]
fn single_byte_name_has_no_candidates() {
    let mut f = BitFlipper::new(b"x".to_vec());
    assert!(f.next().is_none());
    let mut g = BitFlipper::new(b".".to_vec());
    assert!(g.collect_candidates().is_empty());
    let mut h = BitFlipper::new(Vec::new());
    assert!(h.next().is_none());
}

#[test]
fn single_label_input_is_rejected() {
    assert_eq!(bitflip_candidates("x").err(), Some(BitflipError::InvalidInput));
    assert_eq!(canonicalise("").err(), Some(BitflipError::InvalidInput));
    assert_eq!(canonicalise(".").err(), Some(BitflipError::InvalidInput));
    assert_eq!(canonicalise("a..b").err(), Some(BitflipError::InvalidInput));
}

#[test]
fn canonical_form_is_lowercase() {
    assert_eq!(canonicalise("EXAMPLE.COM").unwrap(), b"example.com".to_vec());
    assert_eq!(canonicalise("Example.Com.").unwrap(), b"example.com.".to_vec());
}

#[test]
fn uppercase_input_matches_lowercase() {
    assert_eq!(presentations("EXAMPLE.COM"), presentations("example.com"));
}

#[test]
fn generation_is_deterministic() {
    assert_eq!(presentations("bitsquat.example.org"), presentations("bitsquat.example.org"));
}

#[test]
fn generator_steps_one_candidate_at_a_time() {
    let mut f = BitFlipper::new(b"a.com".to_vec());
    let first = f.next().unwrap();
    // bit 0 of 'a' gives '`', which the relaxed parser accepts or not; the
    // first candidate is one of the flips of the first byte
    assert!(one_bit_apart(&first.bytes, b"a.com"));
    assert_eq!(&first.bytes[1..], b".com");
    let rest = f.collect_candidates();
    assert_eq!(rest.len() + 1, bitflip_candidates("a.com").unwrap().len());
}

#[test]
fn duplicate_keys_give_one_entry() {
    let m = ResultMap::from_lookups(vec![
        ("c.com".to_string(), Some(vec![IpAddress::V4(1)])),
        ("c.com".to_string(), Some(vec![IpAddress::V4(2)])),
    ]);
    assert_eq!(m.len(), 1);
    let e = m.entries();
    assert_eq!(e[0].0, "c.com");
    assert_eq!(e[0].1.as_ref().unwrap().ips, vec![IpAddress::V4(2)]);
}

#[test]
fn failed_lookups_give_null_entries() {
    let keys = presentations("a.com");
    let ok = ResultMap::from_lookups(
        keys.iter().map(|k| (k.clone(), Some(vec![IpAddress::V4(0x7f000001)]))).collect(),
    );
    let failed = ResultMap::from_lookups(keys.iter().map(|k| (k.clone(), None)).collect());
    assert_eq!(ok.len(), failed.len());
    let mut a: Vec<String> = ok.entries().iter().map(|e| e.0.clone()).collect();
    let mut b: Vec<String> = failed.entries().iter().map(|e| e.0.clone()).collect();
    a.sort();
    b.sort();
    assert_eq!(a, b);
    assert!(failed.entries().iter().all(|e| e.1.is_none()));
    assert!(ok.entries().iter().all(|e| e.1.is_some()));
}

#[test]
fn result_map_keys_distinct() {
    let mut m = ResultMap::new();
    m.insert("b.com".to_string(), None);
    m.insert("c.com".to_string(), None);
    m.insert("b.com".to_string(), Some(DomainData { ips: vec![IpAddress::V6(1)] }));
    assert_eq!(m.len(), 2);
    let e = m.entries();
    assert_ne!(e[0].0, e[1].0);
}

#[test]
fn outcome_drops_repeats_and_empties() {
    assert!(resolution_outcome(&None).is_none());
    assert!(resolution_outcome(&Some(Vec::new())).is_none());
    let d = resolution_outcome(&Some(vec![
        IpAddress::V4(5),
        IpAddress::V6(9),
        IpAddress::V4(5),
    ]))
    .unwrap();
    assert_eq!(d.ips, vec![IpAddress::V4(5), IpAddress::V6(9)]);
}

#[test]
fn form_field_round_trip() {
    let info = MyInfo::new("example.com".to_string());
    assert_eq!(info.domain_name(), "example.com");
}

#[test]
fn longest_name_stays_within_bound() {
    let label = "a".repeat(63);
    let name = format!("{}.{}.{}.{}", label, label, label, "b".repeat(61));
    assert_eq!(name.len(), 253);
    let cands = bitflip_candidates(&name).unwrap();
    assert!(!cands.is_empty());
    assert!(cands.len() <= 8 * 252);
    for c in &cands {
        assert!(one_bit_apart(&c.bytes, name.as_bytes()));
        assert_eq!(c.bytes.last(), name.as_bytes().last());
    }
}
