use evm_tools::asm_source::{asm_source, bytecode_hex, AsmSource};
use evm_tools::contract_list::{
    contract_addresses, contract_addresses_checked, contract_list_entries, MAX_CONTRACTS,
};
use evm_tools::contract_scrape::{is_progress_block, ContractSet, PROGRESS_INTERVAL};

fn chars(s: &str) -> Vec<char> {
    s.chars().collect()
}

fn texts(v: Vec<Vec<char>>) -> Vec<String> {
    v.into_iter().map(|p| p.into_iter().collect()).collect()
}

#[test]
fn list_entries_are_read() {
    let e = contract_list_entries(&chars("{0xab12, 0xcd34}"));
    assert_eq!(texts(e), vec!["ab12", "cd34"]);
}

#[test]
fn an_empty_list_reads_as_one_empty_entry() {
    assert_eq!(texts(contract_list_entries(&chars("{}"))), vec![""]);
    assert_eq!(texts(contract_list_entries(&chars(""))), vec![""]);
}

#[test]
fn every_0x_is_removed() {
    assert_eq!(texts(contract_list_entries(&chars("{0x0x1, 00xx}"))), vec!["1", "0x"]);
}

#[test]
fn at_most_the_first_entries_are_kept() {
    let mut text = String::from("{");
    for i in 0..MAX_CONTRACTS + 5 {
        if i > 0 {
            text.push_str(", ");
        }
        text.push_str(&format!("0x{:04x}", i));
    }
    text.push('}');
    let e = texts(contract_list_entries(&chars(&text)));
    assert_eq!(e.len(), MAX_CONTRACTS);
    assert_eq!(e[0], "0000");
    assert_eq!(e[MAX_CONTRACTS - 1], format!("{:04x}", MAX_CONTRACTS - 1));
}

#[test]
fn contracts_are_recipients_of_transactions_with_input() {
    let mut set = ContractSet::new();
    let a: &[u8] = &[0xab, 0x01];
    let b: &[u8] = &[0xcd, 0x02];
    set.observe_transaction(Some(a), 4);
    set.observe_transaction(Some(b), 0);
    set.observe_transaction(None, 10);
    set.observe_transaction(Some(a), 1);
    assert_eq!(set.len(), 1);
    assert!(set.contains(a));
    assert!(!set.contains(b));
}

#[test]
fn the_saved_set_reads_back() {
    let mut set = ContractSet::new();
    set.observe_transaction(Some(&[0xde, 0xad, 0xbe, 0xef]), 1);
    set.observe_transaction(Some(&[0x00, 0x0a]), 1);
    let text = set.to_text();
    assert_eq!(text.iter().collect::<String>(), "{0xdeadbeef, 0x000a}");
    assert_eq!(texts(contract_list_entries(&text)), vec!["deadbeef", "000a"]);
}

#[test]
fn an_empty_set_is_saved_as_braces() {
    let set = ContractSet::new();
    assert_eq!(set.to_text().iter().collect::<String>(), "{}");
    assert_eq!(set.len(), 0);
}

#[test]
fn progress_every_thousand_blocks() {
    assert_eq!(PROGRESS_INTERVAL, 1000);
    assert!(is_progress_block(0));
    assert!(is_progress_block(12_000));
    assert!(!is_progress_block(12_001));
}

#[test]
fn source_from_a_file_or_inline() {
    match asm_source(&chars("@prog.asm")) {
        AsmSource::File(p) => assert_eq!(p.iter().collect::<String>(), "prog.asm"),
        _ => panic!("expected a file"),
    }
    match asm_source(&chars("PUSH1 1,PUSH1 2,ADD")) {
        AsmSource::Inline(t) => assert_eq!(t.iter().collect::<String>(), "PUSH1 1\nPUSH1 2\nADD"),
        _ => panic!("expected inline source"),
    }
    assert_eq!(asm_source(&[]), AsmSource::Inline(vec![]));
    assert_eq!(asm_source(&chars("@")), AsmSource::File(vec![]));
}

#[test]
fn bytecode_is_written_in_lower_case_hex() {
    assert_eq!(bytecode_hex(&[0x60, 0x0a, 0xff, 0x00]), "600aff00");
    assert_eq!(bytecode_hex(&[]), "");
}

#[test]
fn list_entries_are_read_as_addresses() {
    let text = chars("{0x00112233445566778899aabbccddeeff00112233, 0xDEADBEEFdeadbeefDEADBEEFdeadbeefDEADBEEF}");
    let addrs = contract_addresses_checked(&text).unwrap();
    assert_eq!(addrs.len(), 2);
    assert_eq!(
        addrs[0],
        vec![0x00, 0x11, 0x22, 0x33, 0x44, 0x55, 0x66, 0x77, 0x88, 0x99, 0xaa, 0xbb, 0xcc, 0xdd, 0xee, 0xff, 0x00, 0x11, 0x22, 0x33]
    );
    assert_eq!(addrs[1][0..4], [0xde, 0xad, 0xbe, 0xef]);
    assert_eq!(contract_addresses(&text), addrs);
}

#[test]
fn entries_that_are_not_addresses_are_refused() {
    assert_eq!(contract_addresses_checked(&chars("{0xabcd}")), None);
    assert_eq!(contract_addresses_checked(&chars("{}")), None);
    let bad = chars("{0x00112233445566778899aabbccddeeff0011223g}");
    assert_eq!(contract_addresses_checked(&bad), None);
    let tab = chars("{0x0011223344556677\t8899aabbccddeeff00112233}");
    assert_eq!(contract_addresses_checked(&tab).unwrap()[0][9], 0x99);
}

#[test]
fn saved_addresses_read_back_as_addresses() {
    let a: Vec<u8> = (0u8..20).collect();
    let b: Vec<u8> = (100u8..120).collect();
    let mut set = ContractSet::new();
    set.observe_transaction(Some(&a), 1);
    set.observe_transaction(Some(&b), 2);
    let text = set.to_text();
    assert_eq!(contract_addresses(&text), vec![a, b]);
}
