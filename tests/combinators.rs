use parst::primitives::Primitive;
use parst::{
    try_split_array, try_split_at, ConsumingVec, Counted, Deparsable, Error, Never, Parsable,
    VarBytes, VarBytesCow, VarBytesOwned, VarStructs, BE, LE,
};

fn encode<T: Deparsable>(v: &T) -> Result<Vec<u8>, Error> {
    let mut out = Vec::new();
    v.write(&mut out)?;
    Ok(out)
}

#[test]
fn bare_integers_are_little_endian() {
    let src = [0x01, 0x02, 0x03, 0x04, 0x05, 0x06, 0x07, 0x08, 0x09];
    let (v, rest) = <u16 as Parsable<()>>::read(&src, ()).unwrap();
    assert_eq!(v, 0x0201);
    assert_eq!(rest, &src[2..]);
    let (v, rest) = <u32 as Parsable<()>>::read(&src, ()).unwrap();
    assert_eq!(v, 0x0403_0201);
    assert_eq!(rest, &src[4..]);
    let (v, rest) = <u64 as Parsable<()>>::read(&src, ()).unwrap();
    assert_eq!(v, 0x0807_0605_0403_0201);
    assert_eq!(rest, &[0x09]);
    let (v, _) = <u8 as Parsable<()>>::read(&src, ()).unwrap();
    assert_eq!(v, 1);
}

#[test]
fn signed_integers_use_twos_complement() {
    let (v, _) = <i8 as Parsable<()>>::read(&[0xff], ()).unwrap();
    assert_eq!(v, -1);
    let (v, _) = <i16 as Parsable<()>>::read(&[0xfe, 0xff], ()).unwrap();
    assert_eq!(v, -2);
    let (v, _) = <i32 as Parsable<()>>::read(&[0x00, 0x00, 0x00, 0x80], ()).unwrap();
    assert_eq!(v, i32::MIN);
    let (v, _) = <i64 as Parsable<()>>::read(&[0xff; 8], ()).unwrap();
    assert_eq!(v, -1);
    assert_eq!(encode(&-2i16).unwrap(), vec![0xfe, 0xff]);
    assert_eq!(encode(&i64::MIN).unwrap(), vec![0, 0, 0, 0, 0, 0, 0, 0x80]);
}

#[test]
fn explicit_byte_orders() {
    let src = [0x12, 0x34, 0x56, 0x78];
    let (v, _) = <LE<u32> as Parsable<()>>::read(&src, ()).unwrap();
    assert_eq!(v.0, 0x7856_3412);
    let (v, _) = <BE<u32> as Parsable<()>>::read(&src, ()).unwrap();
    assert_eq!(v.0, 0x1234_5678);
    let (v, rest) = <BE<u16> as Parsable<()>>::read(&src, ()).unwrap();
    assert_eq!(*v.as_ref(), 0x1234);
    assert_eq!(rest, &[0x56, 0x78]);
    assert_eq!(encode(&BE(0x0102_0304u32)).unwrap(), vec![1, 2, 3, 4]);
    assert_eq!(encode(&LE(0x0102_0304u32)).unwrap(), vec![4, 3, 2, 1]);
    assert_eq!(encode(&BE(-2i16)).unwrap(), vec![0xff, 0xfe]);
    let mut w = LE(5u8);
    *w.as_mut() = 7;
    assert_eq!(w.0, 7);
}

#[test]
fn truncated_fixed_width_fails_at_start() {
    let src = [0xaa, 0xbb, 0xcc, 0xdd, 0xee, 0xff, 0x11, 0x22];
    for n in 1..4 {
        let (e, rest) = <u32 as Parsable<()>>::read(&src[..n], ()).unwrap_err();
        assert_eq!(e, Error::NotEnoughBytes);
        assert_eq!(rest, &src[..n]);
    }
    for n in 1..8 {
        let (e, rest) = <BE<u64> as Parsable<()>>::read(&src[..n], ()).unwrap_err();
        assert_eq!(e, Error::NotEnoughBytes);
        assert_eq!(rest.len(), n);
    }
    let (e, _) = <u8 as Parsable<()>>::read(&[], ()).unwrap_err();
    assert_eq!(e, Error::NotEnoughBytes);
}

#[test]
fn primitive_widths() {
    assert_eq!(<u8 as Primitive>::byte_width(), 1);
    assert_eq!(<i16 as Primitive>::byte_width(), 2);
    assert_eq!(<u32 as Primitive>::byte_width(), 4);
    assert_eq!(<i64 as Primitive>::byte_width(), 8);
}

#[test]
fn option_swallows_failure() {
    let src = [0x01];
    let (v, rest) = <Option<u16> as Parsable<()>>::read(&src, ()).unwrap();
    assert_eq!(v, None);
    assert_eq!(rest, &src);
    let src = [0x01, 0x02, 0x03];
    let (v, rest) = <Option<u16> as Parsable<()>>::read(&src, ()).unwrap();
    assert_eq!(v, Some(0x0201));
    assert_eq!(rest, &[0x03]);
    let (v, rest) = <Option<Never> as Parsable<()>>::read(&src, ()).unwrap();
    assert!(v.is_none());
    assert_eq!(rest, &src);
    assert_eq!(encode(&Some(7u8)).unwrap(), vec![7]);
    assert_eq!(encode(&None::<u8>).unwrap(), Vec::<u8>::new());
}

#[test]
fn greedy_sequence_stops_at_first_failure() {
    let src = [1, 0, 2, 0, 5];
    let (v, rest) = <Vec<u16> as Parsable<()>>::read(&src, ()).unwrap();
    assert_eq!(v, vec![1, 2]);
    assert_eq!(rest, &[5]);
    assert!(<u16 as Parsable<()>>::read(rest, ()).is_err());
    let (v, rest) = <Vec<u8> as Parsable<()>>::read(&[], ()).unwrap();
    assert!(v.is_empty());
    assert!(rest.is_empty());
    assert_eq!(encode(&vec![1u16, 2]).unwrap(), vec![1, 0, 2, 0]);
}

#[test]
fn greedy_sequence_stops_on_items_that_consume_nothing() {
    let src = [9, 9];
    let (v, rest) = <Vec<()> as Parsable<()>>::read(&src, ()).unwrap();
    assert!(v.is_empty());
    assert_eq!(rest, &src);
    let (v, rest) = <Vec<Option<u16>> as Parsable<()>>::read(&[1, 0, 3], ()).unwrap();
    assert_eq!(v, vec![Some(1)]);
    assert_eq!(rest, &[3]);
}

#[test]
fn boxed_value() {
    let (v, rest) = <Box<u8> as Parsable<()>>::read(&[4, 5], ()).unwrap();
    assert_eq!(*v, 4);
    assert_eq!(rest, &[5]);
    assert_eq!(encode(&Box::new(9u8)).unwrap(), vec![9]);
}

#[test]
fn tuples_read_left_to_right() {
    let src = [1, 0x00, 0x02, 3, 0, 0, 0, 9];
    let ((a, b, c), rest) = <(u8, BE<u16>, u32) as Parsable<()>>::read(&src, ()).unwrap();
    assert_eq!((a, b.0, c), (1, 2, 3));
    assert_eq!(rest, &[9]);
    let (e, rest) = <(u8, u32) as Parsable<()>>::read(&[1, 2, 3], ()).unwrap_err();
    assert_eq!(e, Error::NotEnoughBytes);
    assert_eq!(rest, &[2, 3]);
    let src = [1, 2, 3, 4, 5, 6, 7, 8];
    let (t, rest) = <(u8, u8, u8, u8, u8, u8, u8, u8) as Parsable<()>>::read(&src, ()).unwrap();
    assert_eq!(t, (1, 2, 3, 4, 5, 6, 7, 8));
    assert!(rest.is_empty());
    let (t, _) = <(u8,) as Parsable<()>>::read(&src, ()).unwrap();
    assert_eq!(t, (1,));
    assert_eq!(encode(&(1u8, BE(2u16), LE(3u16))).unwrap(), vec![1, 0, 2, 3, 0]);
    assert_eq!(encode(&(1u8, Never)), Err(Error::InvalidInput));
}

#[test]
fn fixed_arrays() {
    let src = [1, 0, 2, 0, 3];
    let (a, rest) = <[u16; 2] as Parsable<()>>::read(&src, ()).unwrap();
    assert_eq!(a, [1, 2]);
    assert_eq!(rest, &[3]);
    let (e, rest) = <[u16; 3] as Parsable<()>>::read(&src, ()).unwrap_err();
    assert_eq!(e, Error::NotEnoughBytes);
    assert_eq!(rest, &[3]);
    let (a, rest) = <[u8; 0] as Parsable<()>>::read(&src, ()).unwrap();
    assert_eq!(a, []);
    assert_eq!(rest, &src);
    assert_eq!(encode(&[BE(1u16), BE(2u16)]).unwrap(), vec![0, 1, 0, 2]);
}

#[test]
fn borrowed_byte_runs() {
    let src = [1, 2, 3];
    let (all, rest) = <&[u8] as Parsable<()>>::read(&src, ()).unwrap();
    assert_eq!(all, &src);
    assert!(rest.is_empty());
    let (head, rest) = <&[u8; 2] as Parsable<()>>::read(&src, ()).unwrap();
    assert_eq!(head, &[1, 2]);
    assert_eq!(rest, &[3]);
    let (e, rest) = <&[u8; 4] as Parsable<()>>::read(&src, ()).unwrap_err();
    assert_eq!(e, Error::NotEnoughBytes);
    assert_eq!(rest, &src);
    let run: &[u8] = &[7, 8];
    assert_eq!(encode(&run).unwrap(), vec![7, 8]);
    assert_eq!(encode(&()).unwrap(), Vec::<u8>::new());
}

#[test]
fn splitting_helpers() {
    let src = [1u8, 2, 3];
    let (head, tail) = try_split_at(&src, 1).unwrap();
    assert_eq!(head, &[1]);
    assert_eq!(tail, &[2, 3]);
    assert!(try_split_at(&src, 4).is_none());
    let (head, tail) = try_split_at(&src, 3).unwrap();
    assert_eq!(head, &src);
    assert!(tail.is_empty());
    let (head, tail) = try_split_array::<u8, 2>(&src).unwrap();
    assert_eq!(head, &[1, 2]);
    assert_eq!(tail, &[3]);
    assert!(try_split_array::<u8, 4>(&src).is_none());
}

#[test]
fn length_prefixed_bytes() {
    let src = [3, 0xaa, 0xbb, 0xcc, 0xdd];
    let (v, rest) = <VarBytes<u8> as Parsable<()>>::read(&src, ()).unwrap();
    assert_eq!(v.as_ref(), &[0xaa, 0xbb, 0xcc]);
    assert_eq!(v.length(), 3);
    assert_eq!(rest, &[0xdd]);
    let exact = [3, 0xaa, 0xbb, 0xcc];
    let (v, rest) = <VarBytes<u8> as Parsable<()>>::read(&exact, ()).unwrap();
    assert_eq!(v.as_ref(), &[0xaa, 0xbb, 0xcc]);
    assert!(rest.is_empty());
    let short = [3, 0xaa, 0xbb];
    let (e, rest) = <VarBytes<u8> as Parsable<()>>::read(&short, ()).unwrap_err();
    assert_eq!(e, Error::NotEnoughBytes);
    assert_eq!(rest, &[0xaa, 0xbb]);
    let (e, rest) = <VarBytes<u16> as Parsable<()>>::read(&[1], ()).unwrap_err();
    assert_eq!(e, Error::NotEnoughBytes);
    assert_eq!(rest, &[1]);
    let (v, _) = <VarBytes<u16> as Parsable<()>>::read(&[2, 0, 5, 6], ()).unwrap();
    assert_eq!(v.as_ref(), &[5, 6]);
}

#[test]
fn length_prefixed_bytes_encode() {
    let payload = [9u8, 8, 7];
    let v = VarBytes::<u16>::new(&payload).unwrap();
    assert_eq!(encode(&v).unwrap(), vec![3, 0, 9, 8, 7]);
    let long = vec![0u8; 256];
    assert!(VarBytes::<u8>::new(&long).is_none());
    assert!(VarBytes::<u16>::new(&long).is_some());
    let empty = VarBytes::<u8>::new(&[]).unwrap();
    assert_eq!(encode(&empty).unwrap(), vec![0]);
}

#[test]
fn length_prefixed_items() {
    let src = [2, 1, 0, 2, 0, 9];
    let (v, rest) = <VarStructs<u8, u16> as Parsable<()>>::read(&src, ()).unwrap();
    assert_eq!(v.as_ref(), &[1, 2]);
    assert_eq!(rest, &[9]);
    let short = [3, 1, 0, 2, 0, 9];
    let (e, rest) = <VarStructs<u8, u16> as Parsable<()>>::read(&short, ()).unwrap_err();
    assert_eq!(e, Error::NotEnoughBytes);
    assert_eq!(rest, &[9]);
    let v = VarStructs::<u8, BE<u16>>::new(vec![BE(1), BE(2)]).unwrap();
    assert_eq!(encode(&v).unwrap(), vec![2, 0, 1, 0, 2]);
    assert!(VarStructs::<u8, u8>::new(vec![0; 300]).is_none());
    let (e, _) = <VarStructs<u8, Never> as Parsable<()>>::read(&[1, 5], ()).unwrap_err();
    assert_eq!(e, Error::InvalidInput);
    let (v, rest) = <VarStructs<u8, Never> as Parsable<()>>::read(&[0, 5], ()).unwrap();
    assert!(v.as_ref().is_empty());
    assert_eq!(rest, &[5]);
}

#[test]
fn consuming_sequence_must_use_everything() {
    let (v, rest) = <ConsumingVec<u16> as Parsable<()>>::read(&[1, 0, 2, 0], ()).unwrap();
    assert_eq!(v.as_ref(), &[1, 2]);
    assert!(rest.is_empty());
    let (e, rest) = <ConsumingVec<u16> as Parsable<()>>::read(&[1, 0, 2], ()).unwrap_err();
    assert_eq!(e, Error::InvalidInput);
    assert_eq!(rest, &[2]);
    let v = ConsumingVec::new(vec![LE(1u16), LE(2u16)]);
    assert_eq!(encode(&v).unwrap(), vec![1, 0, 2, 0]);
}

#[test]
fn never_decodes_or_encodes() {
    let src = [1, 2];
    let (e, rest) = <Never as Parsable<()>>::read(&src, ()).unwrap_err();
    assert_eq!(e, Error::InvalidInput);
    assert_eq!(rest, &src);
    assert_eq!(encode(&Never), Err(Error::InvalidInput));
    assert_eq!(encode(&vec![Never]), Err(Error::InvalidInput));
    assert_eq!(encode(&Vec::<Never>::new()).unwrap(), Vec::<u8>::new());
}

#[test]
fn round_trips_of_combinators() {
    let value = (LE(0x1234u16), BE(0x5678u32), [7u8, 8], Some(9u8));
    let bytes = encode(&value).unwrap();
    assert_eq!(bytes, vec![0x34, 0x12, 0x00, 0x00, 0x56, 0x78, 7, 8, 9]);
    let ((a, b, c, d), rest) =
        <(LE<u16>, BE<u32>, [u8; 2], Option<u8>) as Parsable<()>>::read(&bytes, ()).unwrap();
    assert_eq!((a.0, b.0, c, d), (0x1234, 0x5678, [7, 8], Some(9)));
    assert!(rest.is_empty());
}

#[test]
fn error_messages() {
    assert_eq!(Error::InvalidInput.message(), "invalid input");
    assert_eq!(Error::NotEnoughBytes.message(), "not enough bytes");
    assert_eq!(Error::AssertionFailed.message(), "assertion failed");
}

#[test]
fn context_sets_the_item_count() {
    let src = [1, 0, 2, 0, 3, 0];
    let (v, rest) = <Counted<u16> as Parsable<u64>>::read(&src, 2).unwrap();
    assert_eq!(v.as_ref(), &[1, 2]);
    assert_eq!(rest, &[3, 0]);
    let (v, rest) = <Counted<u16> as Parsable<u64>>::read(&src, 0).unwrap();
    assert!(v.as_ref().is_empty());
    assert_eq!(rest, &src);
    let (e, rest) = <Counted<u16> as Parsable<u64>>::read(&src, 4).unwrap_err();
    assert_eq!(e, Error::NotEnoughBytes);
    assert!(rest.is_empty());
    let pair = [1, 2, 3, 4, 5];
    let ((a, b), rest) = <(Counted<u8>, Counted<u8>) as Parsable<u64>>::read(&pair, 2).unwrap();
    assert_eq!(a.as_ref(), &[1, 2]);
    assert_eq!(b.as_ref(), &[3, 4]);
    assert_eq!(rest, &[5]);
    let (v, _) = <Option<Counted<u8>> as Parsable<u64>>::read(&[1], 2).unwrap();
    assert!(v.is_none());
    assert_eq!(encode(&Counted::new(vec![BE(1u16)])).unwrap(), vec![0, 1]);
}

#[test]
fn byte_run_ownership_flavors() {
    let src = [2, 5, 6, 7];
    let (cow, rest) = <VarBytesCow<u8> as Parsable<()>>::read(&src, ()).unwrap();
    assert_eq!(cow.as_ref(), &[5, 6]);
    assert_eq!(cow.length(), 2);
    assert_eq!(rest, &[7]);
    let owned = cow.into_owned();
    assert_eq!(owned.as_ref(), &[5, 6]);
    assert_eq!(encode(&owned).unwrap(), vec![2, 5, 6]);
    let (owned, rest) = <VarBytesOwned<u16> as Parsable<()>>::read(&[1, 0, 9, 8], ()).unwrap();
    assert_eq!(owned.length(), 1);
    assert_eq!(owned.into_vec(), vec![9]);
    assert_eq!(rest, &[8]);
    let (e, rest) = <VarBytesOwned<u8> as Parsable<()>>::read(&[4, 1], ()).unwrap_err();
    assert_eq!(e, Error::NotEnoughBytes);
    assert_eq!(rest, &[1]);
    let cow = VarBytesCow::<u8>::new(std::borrow::Cow::Owned(vec![1, 2, 3])).unwrap();
    assert_eq!(encode(&cow).unwrap(), vec![3, 1, 2, 3]);
    assert!(VarBytesOwned::<u8>::new(vec![0; 256]).is_none());
    assert!(VarBytesCow::<u8>::new(std::borrow::Cow::Borrowed(&[0; 300][..])).is_none());
}
