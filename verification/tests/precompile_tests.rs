use besu_native::precompile::modexp_precompiled_impl;

#[test]
fn test_modexp_precompiled() {
    let mut input = vec![0u8; 96];
    input[31] = 1;  // base_len = 1
    input[63] = 1;  // exp_len = 1
    input[95] = 1;  // mod_len = 1
    input.push(2);  // base = 2
    input.push(3);  // exp = 3
    input.push(5);  // mod = 5

    let output = modexp_precompiled_impl(&input);

    assert_eq!(output.len(), 1); // Expect output length to be 1
    assert_eq!(output[0], 3); // Expect output to be 3 (2^3 % 5 = 3)
}

#[test]
fn test_zero_exponent_one_byte_modulus() {
    // base_len = 0, exp_len = 0, mod_len = 1, modulus = 7: zero exponent
    // yields 1 mod 7 = 1.
    let mut input = vec![0u8; 96];
    input[95] = 1;
    input.push(7);
    let output = modexp_precompiled_impl(&input);
    assert_eq!(*output, vec![1u8]);
}

#[test]
fn test_zero_base_and_mod_len_gives_empty() {
    // base_len = 0 and mod_len = 0 yield empty output whatever exp_len says.
    let mut input = vec![0u8; 96];
    input[63] = 5;  // exp_len = 5
    input.extend(vec![9u8; 5]);
    let output = modexp_precompiled_impl(&input);
    assert_eq!(output.len(), 0);
}

#[test]
fn test_base_len_overflow_prefix_gives_empty() {
    // A nonzero byte among the 24 most significant bytes of base_len empties
    // the output regardless of the rest of the buffer.
    let mut input = vec![0u8; 96];
    input[3] = 1;
    input[31] = 1;
    input[63] = 1;
    input[95] = 1;
    input.push(2);
    input.push(3);
    input.push(5);
    let output = modexp_precompiled_impl(&input);
    assert_eq!(output.len(), 0);
}

#[test]
fn test_exp_len_overflow_prefix_gives_empty() {
    let mut input = vec![0u8; 96];
    input[31] = 1;
    input[33] = 1;  // nonzero byte in the exp_len overflow prefix
    input[95] = 1;
    input.push(2);
    input.push(3);
    input.push(5);
    let output = modexp_precompiled_impl(&input);
    assert_eq!(output.len(), 0);
}

#[test]
fn test_base_len_at_ceiling_gives_empty() {
    // base_len = 0xffff_ffff is not below the ceiling: overflow.
    let mut input = vec![0u8; 96];
    input[28] = 0xff;
    input[29] = 0xff;
    input[30] = 0xff;
    input[31] = 0xff;
    input[95] = 1;
    input.push(7);
    let output = modexp_precompiled_impl(&input);
    assert_eq!(output.len(), 0);
}

#[test]
fn test_truncated_length_field_fills_high_bytes() {
    // A buffer ending inside the mod_len integer window: the available bytes
    // fill the high end, so a single 1 there decodes far above the ceiling.
    let mut input = vec![0u8; 90];
    input[31] = 1;  // base_len = 1
    input[88] = 1;  // the first available byte of the mod_len window
    let output = modexp_precompiled_impl(&input);
    assert_eq!(output.len(), 0);
}

#[test]
fn test_missing_operand_bytes_read_as_zero() {
    // base and exp present, modulus region past the buffer: modulus reads as
    // zero, the exponentiation yields empty bytes, padded to mod_len.
    let mut input = vec![0u8; 96];
    input[31] = 1;
    input[63] = 1;
    input[95] = 1;
    input.push(2);
    input.push(3);
    // no modulus byte
    let output = modexp_precompiled_impl(&input);
    assert_eq!(*output, vec![0u8]);
}

#[test]
fn test_empty_input_gives_empty_output() {
    let input: Vec<u8> = Vec::new();
    let output = modexp_precompiled_impl(&input);
    assert_eq!(output.len(), 0);
}

#[test]
fn test_modulus_one_pads_to_zero_byte() {
    // 5^10 mod 1 = 0, rendered as empty bytes, left-padded to mod_len = 1.
    let mut input = vec![0u8; 96];
    input[31] = 1;
    input[63] = 1;
    input[95] = 1;
    input.push(5);
    input.push(10);
    input.push(1);
    let output = modexp_precompiled_impl(&input);
    assert_eq!(*output, vec![0u8]);
}

#[test]
fn test_output_padded_to_modulus_width() {
    // mod_len = 32, base = 3, exponent = 1024, modulus = 2^255 - 19:
    // the output is exactly 32 bytes, left padded, equal to 3^1024 mod P.
    let p: Vec<u8> = vec![
        127, 255, 255, 255, 255, 255, 255, 255, 255, 255, 255, 255, 255, 255, 255, 255, 255, 255,
        255, 255, 255, 255, 255, 255, 255, 255, 255, 255, 255, 255, 255, 237,
    ];
    let expected: Vec<u8> = vec![
        50, 54, 67, 189, 173, 227, 96, 59, 173, 35, 208, 65, 145, 161, 146, 89, 95, 103, 9, 130,
        58, 107, 217, 61, 230, 249, 202, 132, 247, 98, 24, 168,
    ];
    let mut input = vec![0u8; 96];
    input[31] = 1;  // base_len = 1
    input[63] = 2;  // exp_len = 2
    input[95] = 32;  // mod_len = 32
    input.push(3);  // base = 3
    input.push(4);  // exponent = 0x0400 = 1024
    input.push(0);
    input.extend(p);
    let output = modexp_precompiled_impl(&input);
    assert_eq!(output.len(), 32);
    assert_eq!(*output, expected);
}
