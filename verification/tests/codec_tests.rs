use db_rs::Bincode;
use db_rs::Codec;
use db_rs::DbError;

#[test]
fn bincode_writes_a_byte_as_it_is() {
    let bytes = <Bincode as Codec<u8>>::serialize(&0xab).unwrap();
    assert_eq!(bytes, vec![0xab]);
    assert_eq!(bytes, bincode::serialize(&0xabu8).unwrap());
    let (value, used) = <Bincode as Codec<u8>>::deserialize(&[0xab, 1, 2]).unwrap();
    assert_eq!((value, used), (0xab, 1));
    assert!(matches!(<Bincode as Codec<u8>>::deserialize(&[]), Err(DbError::Bincode(_))));
}

#[test]
fn bincode_writes_a_u32_in_four_bytes_least_significant_first() {
    let bytes = <Bincode as Codec<u32>>::serialize(&0x0102_0304).unwrap();
    assert_eq!(bytes, vec![4, 3, 2, 1]);
    assert_eq!(<Bincode as Codec<u32>>::serialize(&u32::MAX).unwrap(), vec![255; 4]);
    let (value, used) = <Bincode as Codec<u32>>::deserialize(&[4, 3, 2, 1, 9]).unwrap();
    assert_eq!((value, used), (0x0102_0304, 4));
    assert!(matches!(<Bincode as Codec<u32>>::deserialize(&[4, 3, 2]), Err(DbError::Bincode(_))));
}

#[test]
fn bincode_writes_a_u64_in_eight_bytes_least_significant_first() {
    let bytes = <Bincode as Codec<u64>>::serialize(&0x0102_0304_0506_0708).unwrap();
    assert_eq!(bytes, vec![8, 7, 6, 5, 4, 3, 2, 1]);
    let (value, used) = <Bincode as Codec<u64>>::deserialize(&[8, 7, 6, 5, 4, 3, 2, 1, 0, 0]).unwrap();
    assert_eq!((value, used), (0x0102_0304_0506_0708, 8));
    assert!(matches!(<Bincode as Codec<u64>>::deserialize(&[0; 7]), Err(DbError::Bincode(_))));
}

#[test]
fn bincode_writes_a_string_with_its_length_in_front() {
    let bytes = <Bincode as Codec<String>>::serialize(&"ab".to_string()).unwrap();
    assert_eq!(bytes, vec![2, 0, 0, 0, 0, 0, 0, 0, b'a', b'b']);
    let text = "h\u{e9}llo \u{1f980}".to_string();
    let bytes = <Bincode as Codec<String>>::serialize(&text).unwrap();
    assert_eq!(bytes, bincode::serialize(&text).unwrap());
    let mut longer = bytes.clone();
    longer.extend([1, 2, 3]);
    let (value, used) = <Bincode as Codec<String>>::deserialize(&longer).unwrap();
    assert_eq!(value, text);
    assert_eq!(used, bytes.len());
}

#[test]
fn bincode_refuses_a_string_that_is_cut_short_or_not_utf8() {
    let short = [3, 0, 0, 0, 0, 0, 0, 0, b'a', b'b'];
    assert!(matches!(<Bincode as Codec<String>>::deserialize(&short), Err(DbError::Bincode(_))));
    let not_utf8 = [2, 0, 0, 0, 0, 0, 0, 0, 0xff, 0xfe];
    assert!(matches!(<Bincode as Codec<String>>::deserialize(&not_utf8), Err(DbError::Bincode(_))));
    let no_length = [2, 0, 0];
    assert!(matches!(<Bincode as Codec<String>>::deserialize(&no_length), Err(DbError::Bincode(_))));
}

#[test]
fn bincode_writes_bytes_with_their_count_in_front() {
    let bytes = <Bincode as Codec<Vec<u8>>>::serialize(&vec![9, 8, 7]).unwrap();
    assert_eq!(bytes, vec![3, 0, 0, 0, 0, 0, 0, 0, 9, 8, 7]);
    assert_eq!(bytes, bincode::serialize(&vec![9u8, 8, 7]).unwrap());
    let (value, used) = <Bincode as Codec<Vec<u8>>>::deserialize(&[1, 0, 0, 0, 0, 0, 0, 0, 5, 6]).unwrap();
    assert_eq!((value, used), (vec![5], 9));
    let short = [2, 0, 0, 0, 0, 0, 0, 0, 5];
    assert!(matches!(<Bincode as Codec<Vec<u8>>>::deserialize(&short), Err(DbError::Bincode(_))));
}

#[test]
fn bincode_writes_numbers_in_sixteen_bytes_each() {
    let numbers = vec![1u128, 0x0102_0304_0506_0708_090a_0b0c_0d0e_0f10];
    let bytes = <Bincode as Codec<Vec<u128>>>::serialize(&numbers).unwrap();
    let mut expected = vec![2, 0, 0, 0, 0, 0, 0, 0];
    expected.extend([1, 0, 0, 0, 0, 0, 0, 0, 0, 0, 0, 0, 0, 0, 0, 0]);
    expected.extend([16, 15, 14, 13, 12, 11, 10, 9, 8, 7, 6, 5, 4, 3, 2, 1]);
    assert_eq!(bytes, expected);
    assert_eq!(bytes, bincode::serialize(&numbers).unwrap());
    let mut longer = bytes.clone();
    longer.push(77);
    let (value, used) = <Bincode as Codec<Vec<u128>>>::deserialize(&longer).unwrap();
    assert_eq!((value, used), (numbers, 40));
    assert!(matches!(
        <Bincode as Codec<Vec<u128>>>::deserialize(&bytes[..39]),
        Err(DbError::Bincode(_))
    ));
}
