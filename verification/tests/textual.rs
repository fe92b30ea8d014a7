//! Tests of the textual layers: numeral rendering, hex input parsing,
//! the emitted header, and whole-run file generation.

use devmpg::block::PrecheckPolicy;
use devmpg::driver::{generate, header_file_content, Config};
use devmpg::errors::Error;
use devmpg::groups::RootSpec;
use devmpg::hexutil::parse_hex;

fn rendered_udec(n: usize) -> String {
    let mut s = String::new();
    devmpg::render::append_udec(&mut s, n);
    s
}

fn rendered_hex_pad(n: u64, width: usize) -> String {
    let mut s = String::new();
    devmpg::render::append_uhex64_pad(&mut s, n, width);
    s
}

#[test]
fn decimal_rendering() {
    assert_eq!(rendered_udec(0), "0");
    assert_eq!(rendered_udec(7), "7");
    assert_eq!(rendered_udec(65535), "65535");
    assert_eq!(rendered_udec(1000), "1000");
}

#[test]
fn hex_rendering() {
    assert_eq!(rendered_hex_pad(0, 4), "0000");
    assert_eq!(rendered_hex_pad(0x2a, 4), "002a");
    assert_eq!(rendered_hex_pad(0xdeadbeef, 4), "deadbeef");
    assert_eq!(rendered_hex_pad(0xff, 2), "ff");
    assert_eq!(rendered_hex_pad(0x5, 2), "05");
}

#[test]
fn hex_parsing_accepts_prefixes_and_whitespace() {
    assert_eq!(parse_hex(b"0x6001").unwrap(), vec![0x60, 0x01]);
    assert_eq!(parse_hex(b"  6001\n").unwrap(), vec![0x60, 0x01]);
    assert_eq!(parse_hex(b"0xAbCd").unwrap(), vec![0xab, 0xcd]);
    // An odd digit count reads the leading digit alone.
    assert_eq!(parse_hex(b"0x123").unwrap(), vec![0x01, 0x23]);
    assert_eq!(parse_hex(b"").unwrap(), Vec::<u8>::new());
}

#[test]
fn hex_parsing_rejects_bad_digits() {
    match parse_hex(b"0x60zz") {
        Err(Error::InvalidHex(_)) => {},
        other => panic!("expected an invalid hex error, got {:?}", other.err()),
    }
}

#[test]
fn header_embeds_the_bytecode_constant() {
    let devmdir = String::from("evm-dafny");
    let content = header_file_content(&devmdir, 0, &vec![0x60, 0x01, 0x55]);
    assert!(content.contains("include \"evm-dafny/src/dafny/evm.dfy\""));
    assert!(content.contains("module Header {"));
    assert!(content.contains("const BYTECODE_0 : seq<u8> := ["));
    assert!(content.contains("0x60, 0x01, 0x55"));
    assert!(content.contains("method external_call"));
}

fn test_config() -> Config {
    Config {
        prefix: String::from("sample"),
        devmdir: String::from("evm-dafny"),
        checks: PrecheckPolicy::OverflowChecks,
        blocksize: 65535,
        debug: false,
        minimise_requires: false,
        minimise_internal: false,
    }
}

#[test]
fn generate_emits_header_and_main_group() {
    // PUSH1 0x01 PUSH1 0x02 SSTORE
    let bytes = [0x60u8, 0x01, 0x60, 0x02, 0x55];
    let roots = vec![RootSpec { cid: 0, pc: 0, name: String::from("main") }];
    let (files, complete) = generate(&bytes, &test_config(), &roots, 1_000_000).expect("generate");
    assert!(complete);
    let names: Vec<&str> = files.iter().map(|f| f.name.as_str()).collect();
    assert!(names.contains(&"sample_0_header.dfy"));
    assert!(names.contains(&"sample_0_main.dfy"));
    let main_file = files.iter().find(|f| f.name == "sample_0_main.dfy").unwrap();
    assert!(main_file.content.contains("module main {"));
    assert!(main_file.content.contains("method block_0_0x0000"));
    assert!(main_file.content.contains("st := Push1(st,0x01);"));
    assert!(main_file.content.contains("st := SStore(st);"));
    assert!(main_file.content.contains("requires st'.Operands() == 0"));
}

#[test]
fn generate_minimised_keeps_only_live_slots() {
    // PUSH1 0x42 POP STOP with a one-bytecode budget and pruning on:
    // the dead push value never appears in a requires clause.
    let bytes = [0x60u8, 0x42, 0x50, 0x00];
    let roots = vec![RootSpec { cid: 0, pc: 0, name: String::from("main") }];
    let mut config = test_config();
    config.blocksize = 1;
    config.minimise_requires = true;
    let (files, _) = generate(&bytes, &config, &roots, 1_000_000).expect("generate");
    let main_file = files.iter().find(|f| f.name == "sample_0_main.dfy").unwrap();
    assert!(!main_file.content.contains("Peek(0) == 0x42"));
    // Without pruning the fact is emitted.
    let mut plain = test_config();
    plain.blocksize = 1;
    let (files2, _) = generate(&bytes, &plain, &roots, 1_000_000).expect("generate");
    let main2 = files2.iter().find(|f| f.name == "sample_0_main.dfy").unwrap();
    assert!(main2.content.contains("Peek(0) == 0x42"));
}

#[test]
fn generate_rejects_a_root_outside_the_sections() {
    let bytes = [0x60u8, 0x01, 0x60, 0x02, 0x55];
    let roots = vec![RootSpec { cid: 3, pc: 0, name: String::from("main") }];
    let r = generate(&bytes, &test_config(), &roots, 1_000_000);
    assert_eq!(r.err(), Some(Error::InvalidRoot(0)));
}

#[test]
fn word_hex_rendering_in_states() {
    // A jump destination block's requires carry the entry PC in
    // padded hex.
    let bytes = [0x60u8, 0x03, 0x56, 0x5b, 0x00];
    let roots = vec![RootSpec { cid: 0, pc: 0, name: String::from("main") }];
    let (files, _) = generate(&bytes, &test_config(), &roots, 1_000_000).expect("generate");
    let main_file = files.iter().find(|f| f.name == "sample_0_main.dfy").unwrap();
    assert!(main_file.content.contains("block_0_0x0003"));
    assert!(main_file.content.contains("assume st.IsJumpDest(0x3);"));
}
