use lexical::large_powers::get_large_powers;

fn value(limbs: &[u32]) -> Vec<u32> {
    limbs.to_vec()
}

fn square(limbs: &[u32]) -> Vec<u32> {
    let mut out = vec![0u32; limbs.len() * 2];
    for (i, &a) in limbs.iter().enumerate() {
        let mut carry = 0u64;
        for (j, &b) in limbs.iter().enumerate() {
            let sum = out[i + j] as u64 + (a as u64) * (b as u64) + carry;
            out[i + j] = sum as u32;
            carry = sum >> 32;
        }
        out[i + limbs.len()] = carry as u32;
    }
    while out.len() > 1 && *out.last().unwrap() == 0 {
        out.pop();
    }
    out
}

#[test]
fn tables_start_with_the_base_and_square_on() {
    for (base, count) in
        [(3u32, 10usize), (5, 9), (7, 9), (11, 9), (13, 9), (17, 9), (19, 8), (23, 8), (29, 8), (31, 8)]
    {
        let table = get_large_powers(base);
        assert_eq!(table.len(), count);
        assert_eq!(table[0], &[base]);
        for i in 1..count {
            assert_eq!(value(table[i]), square(table[i - 1]));
        }
    }
}

#[test]
fn tables_end_below_1075_bits() {
    for base in [3u32, 5, 7, 11, 13, 17, 19, 23, 29, 31] {
        let table = get_large_powers(base);
        let last = table[table.len() - 1];
        let bits = 32 * last.len() as u32 - last[last.len() - 1].leading_zeros();
        assert!(bits <= 1075);
        let next = square(last);
        let next_bits = 32 * next.len() as u32 - next[next.len() - 1].leading_zeros();
        assert!(next_bits > 1076);
    }
}

#[test]
fn powers_of_five() {
    let table = get_large_powers(5);
    assert_eq!(table[3], &[390625]);
    assert_eq!(table[4], &[2264035265, 35]);
}
