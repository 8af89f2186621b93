use varcodec::buffer::Data;
use varcodec::codec::{Reader, Writer};
use varcodec::varint::DecodeError;
use varcodec::zigzag::{
    ZigZagDecode16, ZigZagDecode32, ZigZagDecode64, ZigZagEncode16, ZigZagEncode32,
    ZigZagEncode64,
};

fn encoded<T: Writer>(v: &T) -> Vec<u8> {
    let mut d = Data::new(4);
    d.Write(v);
    d.to_vec()
}

fn round_trip<T: Reader>(v: &T) -> T {
    let mut d = Data::new(0);
    d.Write(v);
    let len = d.len();
    let r = d.Read::<T>().unwrap();
    assert_eq!(d.read_pos(), len);
    r
}

fn from_bytes(b: &[u8]) -> Data {
    let mut d = Data::new(0);
    d.WriteBytes(b);
    d
}

#[test]
fn zigzag_small_values() {
    assert_eq!(ZigZagEncode32(&0), 0);
    assert_eq!(ZigZagEncode32(&-1), 1);
    assert_eq!(ZigZagEncode32(&1), 2);
    assert_eq!(ZigZagEncode32(&-2), 3);
    assert_eq!(ZigZagEncode16(&2), 4);
    assert_eq!(ZigZagEncode64(&-3), 5);
}

#[test]
fn zigzag_extremes() {
    assert_eq!(ZigZagEncode16(&i16::MAX), u16::MAX - 1);
    assert_eq!(ZigZagEncode16(&i16::MIN), u16::MAX);
    assert_eq!(ZigZagEncode32(&i32::MAX), u32::MAX - 1);
    assert_eq!(ZigZagEncode32(&i32::MIN), u32::MAX);
    assert_eq!(ZigZagEncode64(&i64::MAX), u64::MAX - 1);
    assert_eq!(ZigZagEncode64(&i64::MIN), u64::MAX);
}

#[test]
fn zigzag_round_trip_boundaries() {
    for i in [0i16, 1, -1, i16::MIN, i16::MAX, 1234, -1234] {
        assert_eq!(ZigZagDecode16(ZigZagEncode16(&i)), i);
    }
    for i in [0i32, 1, -1, i32::MIN, i32::MAX, 99999, -99999] {
        assert_eq!(ZigZagDecode32(ZigZagEncode32(&i)), i);
    }
    for i in [0i64, 1, -1, i64::MIN, i64::MAX, 1 << 40, -(1 << 40)] {
        assert_eq!(ZigZagDecode64(ZigZagEncode64(&i)), i);
    }
    assert_eq!(ZigZagDecode32(7), -4);
}

#[test]
fn varint_byte_counts() {
    assert_eq!(encoded(&0u32), vec![0x00]);
    assert_eq!(encoded(&127u32), vec![0x7f]);
    assert_eq!(encoded(&128u32), vec![0x80, 0x01]);
    assert_eq!(encoded(&300u32), vec![0xac, 0x02]);
    assert_eq!(encoded(&16383u32), vec![0xff, 0x7f]);
    assert_eq!(encoded(&16384u32), vec![0x80, 0x80, 0x01]);
    assert_eq!(encoded(&u32::MAX), vec![0xff, 0xff, 0xff, 0xff, 0x0f]);
    let max = encoded(&u64::MAX);
    assert_eq!(max.len(), 10);
    assert_eq!(max[9], 0x01);
}

#[test]
fn varint_decodes_byte_for_byte() {
    for v in [0u32, 1, 127, 128, 16383, 16384, 1 << 21, (1 << 28) - 1, u32::MAX] {
        let mut d = from_bytes(&encoded(&v));
        assert_eq!(d.ReadVar32(), Ok(v));
    }
    for v in [0u64, 1 << 35, 1 << 56, (1 << 63) - 1, 1 << 63, u64::MAX] {
        let mut d = from_bytes(&encoded(&v));
        assert_eq!(d.ReadVar64(), Ok(v));
    }
}

#[test]
fn signed_values_use_zigzag() {
    assert_eq!(encoded(&-1i32), vec![0x01]);
    assert_eq!(encoded(&1i32), vec![0x02]);
    assert_eq!(encoded(&-64i16), vec![0x7f]);
    assert_eq!(encoded(&64i64), vec![0x80, 0x01]);
    assert_eq!(encoded(&-1isize), vec![0x01]);
}

#[test]
fn single_byte_types() {
    assert_eq!(encoded(&0xabu8), vec![0xab]);
    assert_eq!(encoded(&-1i8), vec![0xff]);
    assert_eq!(encoded(&true), vec![1]);
    assert_eq!(encoded(&false), vec![0]);
}

#[test]
fn fixed_width_is_little_endian() {
    let mut d = Data::new(0);
    d.WriteFixed(&0x1234u16);
    d.WriteFixed(&-1i32);
    d.WriteFixed(&1u64);
    d.WriteFixed(&true);
    d.WriteFixed(&7u8);
    assert_eq!(
        d.to_vec(),
        vec![0x34, 0x12, 0xff, 0xff, 0xff, 0xff, 1, 0, 0, 0, 0, 0, 0, 0, 1, 7]
    );
    let mut e = Data::new(0);
    e.WriteFixed(&-2isize);
    e.WriteFixed(&3usize);
    assert_eq!(e.to_vec(), vec![0xfe, 0xff, 0xff, 0xff, 0xff, 0xff, 0xff, 0xff, 3, 0, 0, 0, 0, 0, 0, 0]);
}

#[test]
fn round_trip_integers() {
    for v in [0u8, 1, u8::MAX] {
        assert_eq!(round_trip(&v), v);
    }
    for v in [0i8, -1, i8::MIN, i8::MAX] {
        assert_eq!(round_trip(&v), v);
    }
    for v in [0u16, 1, u16::MAX] {
        assert_eq!(round_trip(&v), v);
    }
    for v in [0u32, 1, u32::MAX] {
        assert_eq!(round_trip(&v), v);
    }
    for v in [0u64, 1, u64::MAX] {
        assert_eq!(round_trip(&v), v);
    }
    for v in [0usize, 1, usize::MAX] {
        assert_eq!(round_trip(&v), v);
    }
    for v in [0i16, -1, i16::MIN, i16::MAX] {
        assert_eq!(round_trip(&v), v);
    }
    for v in [0i32, -1, i32::MIN, i32::MAX] {
        assert_eq!(round_trip(&v), v);
    }
    for v in [0i64, -1, i64::MIN, i64::MAX] {
        assert_eq!(round_trip(&v), v);
    }
    for v in [0isize, -1, isize::MIN, isize::MAX] {
        assert_eq!(round_trip(&v), v);
    }
    assert_eq!(round_trip(&true), true);
    assert_eq!(round_trip(&false), false);
}

#[test]
fn round_trip_text() {
    assert_eq!(round_trip(&String::new()), "");
    assert_eq!(round_trip(&String::from("héllo, wörld ✓")), "héllo, wörld ✓");
    assert_eq!(encoded(&"ab"), vec![2, b'a', b'b']);
    assert_eq!(encoded(&String::from("é")), vec![2, 0xc3, 0xa9]);
}

#[test]
fn sequence_of_text_layout() {
    let v = vec![String::from("a"), String::from("bb")];
    assert_eq!(encoded(&v), vec![2, 1, b'a', 2, b'b', b'b']);
    assert_eq!(round_trip(&v), v);
}

#[test]
fn sequence_keeps_duplicates_and_empties() {
    let v = vec![String::new(), String::from("x"), String::from("x"), String::new()];
    assert_eq!(round_trip(&v), v);
    let empty: Vec<String> = Vec::new();
    assert_eq!(encoded(&empty), vec![0]);
    assert_eq!(round_trip(&empty), empty);
}

#[test]
fn nested_sequences() {
    let v: Vec<Vec<i32>> = vec![vec![], vec![-1, 0, 1], vec![i32::MIN, i32::MAX]];
    assert_eq!(round_trip(&v), v);
    let w: Vec<Vec<Vec<String>>> = vec![vec![vec![String::from("in")]], vec![]];
    assert_eq!(round_trip(&w), w);
}

#[test]
fn values_in_a_row() {
    let mut d = Data::new(0);
    d.Write(&7u32);
    d.Write(&String::from("mid"));
    d.Write(&-5i64);
    assert_eq!(d.Read::<u32>(), Ok(7));
    assert_eq!(d.Read::<String>(), Ok(String::from("mid")));
    assert_eq!(d.Read::<i64>(), Ok(-5));
    assert_eq!(d.Read::<u8>(), Err(DecodeError::Truncated));
}

#[test]
fn reset_then_reencode_is_identical() {
    let v = vec![vec![String::from("payload")], vec![String::new(), String::from("z")]];
    let mut d = Data::new(1);
    d.Write(&v);
    let first = d.to_vec();
    d.Clear();
    assert_eq!(d.len(), 0);
    d.Write(&v);
    assert_eq!(d.to_vec(), first);
    let mut other = Data::new(4096);
    other.Write(&123456789u64);
    other.Encode(&v);
    assert_eq!(other.to_vec(), first);
    assert_eq!(other.read_pos(), 0);
}

#[test]
fn growth_keeps_earlier_bytes() {
    let mut small = Data::new(0);
    let mut roomy = Data::new(1 << 20);
    let mut reference: Vec<u8> = Vec::new();
    for i in 0..5000u32 {
        let text = format!("item-{}", i);
        small.Write(&i);
        small.Write(&text);
        roomy.Write(&i);
        roomy.Write(&text);
        reference.extend(encoded(&i));
        reference.push(text.len() as u8);
        reference.extend(text.as_bytes());
    }
    let big = vec![0x5au8; 10000];
    small.WriteBytes(&big);
    roomy.WriteBytes(&big);
    reference.extend(&big);
    assert_eq!(small.to_vec(), reference);
    assert_eq!(roomy.to_vec(), reference);
}

#[test]
fn truncated_inputs() {
    let mut d = Data::new(0);
    assert_eq!(d.Read::<u8>(), Err(DecodeError::Truncated));
    let mut d = from_bytes(&[0x80]);
    assert_eq!(d.Read::<u32>(), Err(DecodeError::Truncated));
    assert_eq!(d.read_pos(), 0);
    let mut d = from_bytes(&[3, b'a']);
    assert_eq!(d.Read::<String>(), Err(DecodeError::Truncated));
    assert_eq!(d.read_pos(), 0);
    let mut d = from_bytes(&[2, 1, b'a']);
    assert_eq!(d.Read::<Vec<String>>(), Err(DecodeError::Truncated));
    assert_eq!(d.read_pos(), 0);
    let mut d = from_bytes(&[1, 2]);
    assert_eq!(d.ReadBytes(3), Err(DecodeError::Truncated));
    assert_eq!(d.ReadBytes(2), Ok(vec![1, 2]));
}

#[test]
fn malformed_varints() {
    let mut d = from_bytes(&[0x80, 0x80, 0x80, 0x80, 0x80, 0x00]);
    assert_eq!(d.Read::<u32>(), Err(DecodeError::MalformedVarint));
    assert_eq!(d.read_pos(), 0);
    let mut d = from_bytes(&[0xff, 0xff, 0xff, 0xff, 0x1f]);
    assert_eq!(d.Read::<u32>(), Err(DecodeError::MalformedVarint));
    let mut d = from_bytes(&[0x80; 11]);
    assert_eq!(d.Read::<u64>(), Err(DecodeError::MalformedVarint));
    let mut d = from_bytes(&[0xff, 0xff, 0xff, 0xff, 0xff, 0xff, 0xff, 0xff, 0xff, 0x02]);
    assert_eq!(d.Read::<u64>(), Err(DecodeError::MalformedVarint));
    let mut d = from_bytes(&[0x80, 0x80, 0x04]);
    assert_eq!(d.Read::<u16>(), Err(DecodeError::MalformedVarint));
    let mut d = from_bytes(&[0x80, 0x80, 0x04]);
    assert_eq!(d.Read::<i16>(), Err(DecodeError::MalformedVarint));
}

#[test]
fn invalid_values() {
    let mut d = from_bytes(&[2]);
    assert_eq!(d.Read::<bool>(), Err(DecodeError::InvalidValue));
    assert_eq!(d.read_pos(), 0);
    let mut d = from_bytes(&[2, 0xc3, 0x28]);
    assert_eq!(d.Read::<String>(), Err(DecodeError::InvalidValue));
    assert_eq!(d.read_pos(), 0);
}

#[test]
fn read_fixed_fills_target() {
    let mut d = Data::new(0);
    d.Write(&-300i32);
    let mut target: i32 = 9;
    assert_eq!(d.ReadFixed(&mut target), Ok(()));
    assert_eq!(target, -300);
    assert_eq!(d.ReadFixed(&mut target), Err(DecodeError::Truncated));
    assert_eq!(target, -300);
}
