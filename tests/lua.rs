use hpk::{
    check_invalid_header, check_valid_header, cripple_header, fix_header, invalid_header,
    valid_header, Bits, LuaHeaderRewriter, Rewrite,
};

#[test]
fn check_valid_header_parser() {
    let h32 = valid_header(Bits::Int32);
    let h64 = valid_header(Bits::Int64);
    assert_eq!(check_valid_header(&h32), Some((Bits::Int32, h32.len())));
    assert_eq!(check_valid_header(&h64), Some((Bits::Int64, h64.len())));
}

#[test]
fn check_invalid_header_parser() {
    let h32 = invalid_header(Bits::Int32);
    let h64 = invalid_header(Bits::Int64);
    assert_eq!(check_invalid_header(&h32), Some((Bits::Int32, h32.len())));
    assert_eq!(check_invalid_header(&h64), Some((Bits::Int64, h64.len())));
}

#[test]
fn header_rewrite() {
    let mut input = valid_header(Bits::Int64);
    input.extend_from_slice(&[0xCA, 0xFE, 0xCA, 0xFE]);

    let mut crippler = LuaHeaderRewriter::new(Rewrite::Cripple);
    let buf = crippler.read(&input);
    assert_eq!(buf.len(), invalid_header(Bits::Int64).len() + 4);
    assert_eq!(buf[0..31], invalid_header(Bits::Int64)[..]);

    let mut output = vec![];
    let mut fixer = LuaHeaderRewriter::new(Rewrite::Fix);
    let n = fixer.write(&buf, &mut output);

    // the rewriter reports the crippled length it took in
    assert_eq!(n, invalid_header(Bits::Int64).len() + 4);
    assert_eq!(output.len(), valid_header(Bits::Int64).len() + 4);

    assert_eq!(input, output);
}

#[test]
fn header_lengths() {
    assert_eq!(valid_header(Bits::Int32).len(), 29);
    assert_eq!(valid_header(Bits::Int64).len(), 33);
    assert_eq!(invalid_header(Bits::Int32).len(), 27);
    assert_eq!(invalid_header(Bits::Int64).len(), 31);
    assert_eq!(
        valid_header(Bits::Int64)[0..12],
        [0x1B, 0x4C, 0x75, 0x61, 0x53, 0x00, 0x19, 0x93, 0x0D, 0x0A, 0x1A, 0x0A]
    );
}

#[test]
fn lua_round_trip_64() {
    let mut input = valid_header(Bits::Int64);
    input.extend_from_slice(&[0xCA, 0xFE, 0xCA, 0xFE]);
    let crippled = cripple_header(&input);
    assert_eq!(crippled.len(), 35);
    let fixed = fix_header(&crippled);
    assert_eq!(fixed.len(), 37);
    assert_eq!(fixed, input);
}

#[test]
fn lua_round_trip_32() {
    let mut input = valid_header(Bits::Int32);
    input.extend_from_slice(b"tail bytes");
    let crippled = cripple_header(&input);
    assert_eq!(crippled.len(), 27 + 10);
    assert_eq!(fix_header(&crippled), input);
}

#[test]
fn other_data_passes_unchanged() {
    let data = b"plain text, no bytecode".to_vec();
    assert_eq!(cripple_header(&data), data);
    assert_eq!(fix_header(&data), data);
    let short = valid_header(Bits::Int64)[..20].to_vec();
    assert_eq!(cripple_header(&short), short);
}

#[test]
fn rewriter_is_one_shot() {
    let header = valid_header(Bits::Int32);
    let mut crippler = LuaHeaderRewriter::new(Rewrite::Cripple);
    assert_eq!(crippler.read(&header), invalid_header(Bits::Int32));
    assert_eq!(crippler.read(&header), header);
}
