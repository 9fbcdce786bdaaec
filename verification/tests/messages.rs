//! Building messages, writing them and reading them back.
use std::collections::HashMap;

use async_rustbus::rustbus_core::marshal::{Marshal, Signature, Unmarshal, UnmarshalContext};
use async_rustbus::rustbus_core::message_builder::{
    DynamicHeader, MarshalledMessage, MarshalledMessageBody, MessageBodyParser, MessageBuilder,
    SigStr,
};
use async_rustbus::rustbus_core::path::{ObjectPath, ObjectPathBuf};
use async_rustbus::rustbus_core::standard_messages;
use async_rustbus::rustbus_core::wire_format::{
    MarshalError, SignatureError, UnmarshalError, ValidationError,
};
use async_rustbus::rustbus_core::{ByteOrder, MessageType, Serial};
use rustbus::wire::marshal::traits::SignatureBuffer;
use rustbus::wire::UnixFd;

/// A value of any type that `rustbus` can marshal.
struct Rb<T>(T);

fn rb_order(order: ByteOrder) -> rustbus::ByteOrder {
    match order {
        ByteOrder::LittleEndian => rustbus::ByteOrder::LittleEndian,
        ByteOrder::BigEndian => rustbus::ByteOrder::BigEndian,
    }
}

impl<T: rustbus::Signature> Signature for Rb<T> {
    fn signature() -> String {
        let mut sig = SignatureBuffer::new();
        T::sig_str(&mut sig);
        sig.as_ref().to_string()
    }
    fn alignment() -> usize {
        T::alignment()
    }
}

impl<T: rustbus::Marshal> Marshal for Rb<T> {
    fn marshal(
        &self,
        order: ByteOrder,
        buf: &mut Vec<u8>,
        fds: &mut Vec<UnixFd>,
    ) -> Result<(), MarshalError> {
        let mut ctx = rustbus::wire::marshal::MarshalContext {
            fds,
            buf,
            byteorder: rb_order(order),
        };
        self.0
            .marshal(&mut ctx)
            .map_err(|_| MarshalError::Descriptor)
    }
}

impl<'buf, T: rustbus::Unmarshal<'buf, 'buf>> Unmarshal<'buf> for Rb<T> {
    fn unmarshal(ctx: &mut UnmarshalContext<'buf>) -> Result<(usize, Self), UnmarshalError> {
        let mut inner = rustbus::wire::unmarshal::UnmarshalContext {
            fds: ctx.fds,
            buf: ctx.buf,
            byteorder: rb_order(ctx.byteorder),
            offset: ctx.offset,
        };
        let (bytes, value) = T::unmarshal(&mut inner).map_err(UnmarshalError::Value)?;
        ctx.offset = inner.offset;
        Ok((bytes, Rb(value)))
    }
}

struct MyStruct {
    x: u64,
    y: String,
}

impl rustbus::Signature for &MyStruct {
    fn signature() -> rustbus::signature::Type {
        rustbus::signature::Type::Container(rustbus::signature::Container::Struct(
            rustbus::signature::StructTypes::new(vec![
                <u64 as rustbus::Signature>::signature(),
                <String as rustbus::Signature>::signature(),
            ])
            .unwrap(),
        ))
    }
    fn alignment() -> usize {
        8
    }
}

impl rustbus::Marshal for &MyStruct {
    fn marshal(
        &self,
        ctx: &mut rustbus::wire::marshal::MarshalContext,
    ) -> Result<(), rustbus::Error> {
        // always align to 8
        ctx.align_to(8);
        rustbus::Marshal::marshal(&self.x, ctx)?;
        rustbus::Marshal::marshal(&self.y, ctx)?;
        Ok(())
    }
}

type WrongNestedDict = HashMap<String, HashMap<String, u64>>;
type WrongStruct = (u64, i32, String);
type NestedDict = HashMap<String, HashMap<String, u32>>;
type Dict<'a> = HashMap<&'a str, u32>;

#[test]
fn test_marshal_trait() {
    let mut body = MarshalledMessageBody::new();
    let bytes: &[&[_]] = &[&[4u64]];
    body.push_param(Rb(bytes)).unwrap();

    assert_eq!(
        vec![12, 0, 0, 0, 8, 0, 0, 0, 4, 0, 0, 0, 0, 0, 0, 0],
        body.buf()
    );
    assert_eq!(body.sig(), "aat");

    let mut body = MarshalledMessageBody::new();
    let mut map = HashMap::new();
    map.insert("a", 4u32);

    body.push_param(Rb(&map)).unwrap();
    assert_eq!(
        vec![12, 0, 0, 0, 0, 0, 0, 0, 1, 0, 0, 0, b'a', 0, 0, 0, 4, 0, 0, 0,],
        body.buf()
    );
    assert_eq!(body.sig(), "a{su}");

    let mut body = MarshalledMessageBody::new();
    body.push_param(Rb((11u64, "str", true))).unwrap();
    assert_eq!(body.sig(), "(tsb)");
    assert_eq!(
        vec![11, 0, 0, 0, 0, 0, 0, 0, 3, 0, 0, 0, b's', b't', b'r', 0, 1, 0, 0, 0,],
        body.buf()
    );

    let mut body = MarshalledMessageBody::new();
    body.push_param(Rb(&MyStruct {
        x: 100,
        y: "A".to_owned(),
    }))
    .unwrap();
    assert_eq!(body.sig(), "(ts)");
    assert_eq!(
        vec![100, 0, 0, 0, 0, 0, 0, 0, 1, 0, 0, 0, b'A', 0,],
        body.buf()
    );

    let mut body = MarshalledMessageBody::new();
    let emptymap: HashMap<&str, u32> = HashMap::new();
    let mut map = HashMap::new();
    let mut map2 = HashMap::new();
    map.insert("a", 4u32);
    map2.insert("a", &map);

    body.push_param(Rb(&map2)).unwrap();
    body.push_param(Rb(&emptymap)).unwrap();
    assert_eq!(body.sig(), "a{sa{su}}a{su}");
    assert_eq!(
        vec![
            28, 0, 0, 0, 0, 0, 0, 0, 1, 0, 0, 0, b'a', 0, 0, 0, 12, 0, 0, 0, 0, 0, 0, 0, 1, 0, 0,
            0, b'a', 0, 0, 0, 4, 0, 0, 0, 0, 0, 0, 0
        ],
        body.buf()
    );

    // try to unmarshal stuff
    let mut body_iter = MessageBodyParser::new(&body);

    // first try some stuff that has the wrong signature
    assert_eq!(
        body_iter.get::<Rb<WrongNestedDict>>().err().unwrap(),
        UnmarshalError::WrongSignature
    );
    assert_eq!(
        body_iter.get::<Rb<WrongStruct>>().err().unwrap(),
        UnmarshalError::WrongSignature
    );

    // the get the correct type and make sure the content is correct
    let newmap2 = body_iter.get::<Rb<NestedDict>>().unwrap().0;
    assert_eq!(newmap2.len(), 1);
    assert_eq!(newmap2.get("a").unwrap().len(), 1);
    assert_eq!(*newmap2.get("a").unwrap().get("a").unwrap(), 4);

    // again try some stuff that has the wrong signature
    assert_eq!(
        body_iter.get::<Rb<WrongNestedDict>>().err().unwrap(),
        UnmarshalError::WrongSignature
    );
    assert_eq!(
        body_iter.get::<Rb<WrongStruct>>().err().unwrap(),
        UnmarshalError::WrongSignature
    );

    // get the empty map next
    let newemptymap = body_iter.get::<Rb<Dict>>().unwrap().0;
    assert_eq!(newemptymap.len(), 0);

    // test get2()
    let mut body_iter = body.parser();
    assert_eq!(
        body_iter.get2::<Rb<NestedDict>, Rb<u16>>().err().unwrap(),
        UnmarshalError::WrongSignature
    );
    assert_eq!(
        body_iter
            .get3::<Rb<NestedDict>, Rb<Dict>, Rb<u32>>()
            .err()
            .unwrap(),
        UnmarshalError::EndOfMessage
    );

    // test to make sure body_iter is left unchanged from last failure and the map is
    // pulled out identically from above
    let (newmap2, newemptymap) = body_iter.get2::<Rb<NestedDict>, Rb<Dict>>().unwrap();
    let (newmap2, newemptymap) = (newmap2.0, newemptymap.0);
    // repeat assertions from above
    assert_eq!(newmap2.len(), 1);
    assert_eq!(newmap2.get("a").unwrap().len(), 1);
    assert_eq!(*newmap2.get("a").unwrap().get("a").unwrap(), 4);
    assert_eq!(newemptymap.len(), 0);
    assert_eq!(
        body_iter.get::<Rb<u16>>().err().unwrap(),
        UnmarshalError::EndOfMessage
    );

    // test mixed get() and get_param()
    let mut body_iter = body.parser();

    // test to make sure body_iter is left unchanged from last failure and the map is
    // pulled out identically from above
    let newmap2 = body_iter.get::<Rb<NestedDict>>().unwrap().0;
    // repeat assertions from above
    assert_eq!(newmap2.len(), 1);
    assert_eq!(newmap2.get("a").unwrap().len(), 1);
    assert_eq!(*newmap2.get("a").unwrap().get("a").unwrap(), 4);
}

enum TestVar<'buf> {
    Str(&'buf str),
    U32(u32),
    Buf(&'buf [u8]),
}

impl rustbus::Signature for TestVar<'_> {
    fn signature() -> rustbus::signature::Type {
        rustbus::signature::Type::Container(rustbus::signature::Container::Variant)
    }
    fn alignment() -> usize {
        1
    }
}

impl rustbus::Marshal for TestVar<'_> {
    fn marshal(
        &self,
        ctx: &mut rustbus::wire::marshal::MarshalContext,
    ) -> Result<(), rustbus::Error> {
        match self {
            TestVar::Str(v) => {
                rustbus::wire::util::write_signature("s", ctx.buf);
                rustbus::Marshal::marshal(v, ctx)
            }
            TestVar::U32(v) => {
                rustbus::wire::util::write_signature("u", ctx.buf);
                rustbus::Marshal::marshal(v, ctx)
            }
            TestVar::Buf(v) => {
                rustbus::wire::util::write_signature("ay", ctx.buf);
                rustbus::Marshal::marshal(v, ctx)
            }
        }
    }
}

/// One eighth of the messages whose number is below `1 << 21`.
fn marshal_part(part: u64) {
    let mut map = HashMap::new();
    map.insert("A", 123456i32);
    map.insert("B", 111111i32);
    map.insert("C", 101010i32);
    map.insert("D", 000000i32);
    map.insert("E", 654321i32);
    let array: Vec<_> = (0..4).map(|i| format!("{}{}{}{}", i, i, i, i)).collect();
    let var_array = [
        TestVar::Str("Hello World!"),
        TestVar::U32(1234),
        TestVar::Buf(&[4, 5, 6, 7]),
    ];
    let mut msg = MessageBuilder::new()
        .signal("com.example", "ExampleSig", "/com/example")
        .build();
    let mut buf = Vec::new();
    let size = (1 << 21) / 8;
    for i in part * size..(part + 1) * size {
        msg.body.reset();
        msg.body
            .push_param3("TestTestTestTest", Rb(i), Rb((i, "InnerTestInnerTest")))
            .unwrap();
        msg.body
            .push_param3(Rb(&map), Rb(&array), Rb(&var_array[..]))
            .unwrap();
        assert_eq!(msg.body.buf().len(), 244);
        assert_eq!(msg.body.sig(), "st(ts)a{si}asav");
        let serial = Serial::new(1).unwrap();
        msg.marshal_header(serial, &mut buf).unwrap();
    }
}

#[test]
fn marshalling() {
    marshal_part(0);
}

#[test]
fn marshalling_second_part() {
    marshal_part(1);
}

#[test]
fn marshalling_third_part() {
    marshal_part(2);
}

#[test]
fn marshalling_fourth_part() {
    marshal_part(3);
}

#[test]
fn marshalling_fifth_part() {
    marshal_part(4);
}

#[test]
fn marshalling_sixth_part() {
    marshal_part(5);
}

#[test]
fn marshalling_seventh_part() {
    marshal_part(6);
}

#[test]
fn marshalling_last_part() {
    marshal_part(7);
}

#[test]
fn parameters_of_the_basic_types() {
    let mut body = MarshalledMessageBody::with_byteorder(ByteOrder::BigEndian);
    body.push_param4(1u8, 0x01020304u32, "hi", "owned".to_string())
        .unwrap();
    assert_eq!(body.sig(), "yuss");
    assert_eq!(
        body.buf(),
        [
            1, 0, 0, 0, 1, 2, 3, 4, 0, 0, 0, 2, b'h', b'i', 0, 0, 0, 0, 0, 5, b'o', b'w', b'n',
            b'e', b'd', 0
        ]
    );
    assert_eq!(body.byteorder(), ByteOrder::BigEndian);
    assert!(body.validate().is_ok());
    let mut parser = body.parser();
    assert_eq!(parser.get_next_sig().unwrap(), "y");
    assert_eq!(parser.get_left_sigs().unwrap().len(), 4);
    let (a, b, c, d): (u8, u32, &str, String) = parser.get4().unwrap();
    assert_eq!((a, b, c, d.as_str()), (1, 0x01020304, "hi", "owned"));
    assert!(parser.get_next_sig().is_none());
    assert!(parser.get_left_sigs().is_none());
    assert_eq!(
        parser.get::<u8>().unwrap_err(),
        UnmarshalError::EndOfMessage
    );
    let empty = MarshalledMessageBody::new();
    assert!(empty.parser().get_left_sigs().is_none());
    assert!(empty.parser().get_next_sig().is_none());
    assert_eq!(
        empty.parser().get::<u32>().unwrap_err(),
        UnmarshalError::EndOfMessage
    );
}

#[test]
fn basic_types_are_given_back() {
    for order in [ByteOrder::LittleEndian, ByteOrder::BigEndian] {
        let mut body = MarshalledMessageBody::with_byteorder(order);
        body.push_param5(1u8, 2u32, "text", true, 0x0102030405060708u64)
            .unwrap();
        assert_eq!(body.sig(), "yusbt");
        assert!(body.validate().is_ok());
        let mut parser = body.parser();
        let (a, b, c, d, e): (u8, u32, &str, bool, u64) = parser.get5().unwrap();
        assert_eq!((a, b, c, d, e), (1, 2, "text", true, 0x0102030405060708));
        assert!(parser.get_next_sig().is_none());
    }
    let mut body = MarshalledMessageBody::new();
    body.push_param2(0x0102030405060708u64, false).unwrap();
    assert_eq!(body.buf(), [8, 7, 6, 5, 4, 3, 2, 1, 0, 0, 0, 0]);
    let mut one_by_one = MarshalledMessageBody::new();
    one_by_one.push_param(0x0102030405060708u64).unwrap();
    one_by_one.push_param(false).unwrap();
    assert_eq!(one_by_one.buf(), body.buf());
    let order = ByteOrder::LittleEndian;
    let bad = MarshalledMessageBody::from_parts(vec![2, 0, 0, 0], vec![], "b".to_string(), order);
    assert_eq!(
        bad.parser().get::<bool>().unwrap_err(),
        UnmarshalError::InvalidBoolean
    );
    let short = MarshalledMessageBody::from_parts(vec![1; 7], vec![], "t".to_string(), order);
    assert_eq!(
        short.parser().get::<u64>().unwrap_err(),
        UnmarshalError::NotEnoughBytes
    );
}

#[test]
fn parameters_of_a_slice() {
    let mut body = MarshalledMessageBody::new();
    let none: [&str; 0] = [];
    body.push_params(&none).unwrap();
    assert_eq!(body.sig(), "");
    body.push_params(&["a", "bc", "def"]).unwrap();
    let mut single = MarshalledMessageBody::new();
    for s in ["a", "bc", "def"] {
        single.push_param(s).unwrap();
    }
    assert_eq!(body.sig(), "sss");
    assert_eq!(body.sig(), single.sig());
    assert_eq!(body.buf(), single.buf());
}

#[test]
fn large_numbers_are_no_lengths() {
    let mut body = MarshalledMessageBody::new();
    body.push_param2(u32::MAX, "text").unwrap();
    body.push_param(Rb(&vec![0xffu8; 64])).unwrap();
    body.push_param(Rb((-1i32, "in a structure"))).unwrap();
    assert_eq!(body.sig(), "usay(is)");
    assert!(body.validate().is_ok());
}

#[test]
fn reset_forgets_file_descriptors() {
    let mut body = MarshalledMessageBody::from_parts(
        vec![0, 0, 0, 0],
        vec![UnixFd::new(4321)],
        "h".to_string(),
        ByteOrder::BigEndian,
    );
    let fd = body.get_fds().pop().unwrap();
    body.reset();
    assert_eq!(body.sig(), "");
    assert!(body.buf().is_empty());
    assert!(body.fds().is_empty());
    assert_eq!(body.byteorder(), ByteOrder::BigEndian);
    assert_eq!(fd.take_raw_fd(), Some(4321));
}

#[test]
fn several_parameters_at_once() {
    let mut body = MarshalledMessageBody::new();
    body.push_param2(1u32, 2u32).unwrap();
    body.push_param3(3u32, 4u32, 5u32).unwrap();
    body.push_param5(6u32, 7u32, 8u32, 9u32, 10u32).unwrap();
    body.push_params(&[11u32, 12]).unwrap();
    assert_eq!(body.sig(), "uuuuuuuuuuuu");
    let mut parser = body.parser();
    let (a, b, c): (u32, u32, u32) = parser.get3().unwrap();
    assert_eq!((a, b, c), (1, 2, 3));
    let (a, b, c, d, e): (u32, u32, u32, u32, u32) = parser.get5().unwrap();
    assert_eq!((a, b, c, d, e), (4, 5, 6, 7, 8));
    assert!(parser.get5::<u32, u32, u32, u32, u32>().is_err());
    assert!(parser.get4::<u32, u32, u32, u8>().is_err());
    let (a, b): (u32, u32) = parser.get2().unwrap();
    assert_eq!((a, b), (9, 10));
    body.reset();
    assert_eq!(body.sig(), "");
    assert_eq!(body.buf().len(), 0);
    assert!(body.validate().is_ok());
    body.reserve(100);
    assert_eq!(body.buf().len(), 0);
}

#[test]
fn object_paths_as_parameters() {
    let mut body = MarshalledMessageBody::new();
    let path = ObjectPath::new("/a/b").unwrap();
    body.push_param2(path, ObjectPathBuf::new()).unwrap();
    assert_eq!(body.sig(), "oo");
    assert_eq!(
        body.buf(),
        [4, 0, 0, 0, b'/', b'a', b'/', b'b', 0, 0, 0, 0, 1, 0, 0, 0, b'/', 0]
    );
    let mut parser = body.parser();
    let first: ObjectPath = parser.get().unwrap();
    let second: ObjectPathBuf = parser.get().unwrap();
    assert_eq!(first.as_str(), "/a/b");
    assert_eq!(second.as_object_path().as_str(), "/");
    let bad = MarshalledMessageBody::from_parts(
        vec![2, 0, 0, 0, b'/', b'-', 0],
        vec![],
        "o".to_string(),
        ByteOrder::LittleEndian,
    );
    assert!(bad.parser().get::<ObjectPath>().is_err());
    assert!(bad.validate().is_err());
}

#[test]
fn variants() {
    let mut body = MarshalledMessageBody::new();
    body.push_variant(7u32).unwrap();
    assert_eq!(body.sig(), "v");
    assert_eq!(body.buf(), [1, b'u', 0, 0, 7, 0, 0, 0]);
    assert!(body.validate().is_ok());
}

/// A body of `depth` variants, each in the one before it.
fn nested_variants(depth: usize) -> MarshalledMessageBody {
    let mut buf = Vec::new();
    for _ in 1..depth {
        buf.extend_from_slice(&[1, b'v', 0]);
    }
    buf.extend_from_slice(&[1, b'y', 0, 5]);
    MarshalledMessageBody::from_parts(buf, vec![], "v".to_string(), ByteOrder::LittleEndian)
}

#[test]
fn variants_that_nest() {
    assert!(nested_variants(1).validate().is_ok());
    assert!(nested_variants(64).validate().is_ok());
    for depth in [65, 66, 1_000_000] {
        assert_eq!(
            nested_variants(depth).validate(),
            Err(UnmarshalError::NestedTooDeep)
        );
    }
    let mut cut = nested_variants(3).buf().to_vec();
    cut.truncate(8);
    let order = ByteOrder::LittleEndian;
    let cut = MarshalledMessageBody::from_parts(cut, vec![], "v".to_string(), order);
    assert!(matches!(cut.validate(), Err(UnmarshalError::Value(_))));
}

#[test]
fn many_variants_side_by_side() {
    let values: Vec<TestVar> = (0..1000).map(TestVar::U32).collect();
    let map: HashMap<u32, TestVar> = (0..1000)
        .map(|i| (i, TestVar::Str("a value with v in it")))
        .collect();
    for order in [ByteOrder::LittleEndian, ByteOrder::BigEndian] {
        let mut body = MarshalledMessageBody::with_byteorder(order);
        body.push_param(Rb(&values[..])).unwrap();
        body.push_param(Rb(&map)).unwrap();
        body.push_param(Rb((1u8, TestVar::Buf(&[1, 2, 3]), "end")))
            .unwrap();
        assert_eq!(body.sig(), "ava{uv}(yvs)");
        assert!(body.validate().is_ok());
        let mut broken = body.buf().to_vec();
        broken.truncate(broken.len() - 1);
        let broken =
            MarshalledMessageBody::from_parts(broken, vec![], body.sig().to_string(), order);
        assert!(matches!(broken.validate(), Err(UnmarshalError::Value(_))));
    }
}

#[test]
fn broken_bodies() {
    let order = ByteOrder::LittleEndian;
    let body = MarshalledMessageBody::from_parts(vec![1], vec![], String::new(), order);
    assert_eq!(
        body.validate(),
        Err(UnmarshalError::Validation(
            ValidationError::InvalidSignature(SignatureError::EmptySignature)
        ))
    );
    let body =
        MarshalledMessageBody::from_parts(vec![1, 0, 0, 0, 0], vec![], "u".to_string(), order);
    assert_eq!(body.validate(), Err(UnmarshalError::NotAllBytesUsed));
    let body = MarshalledMessageBody::from_parts(vec![1], vec![], "u".to_string(), order);
    assert!(matches!(body.validate(), Err(UnmarshalError::Value(_))));
    let body = MarshalledMessageBody::from_parts(vec![1], vec![], "(".to_string(), order);
    assert!(matches!(
        body.validate(),
        Err(UnmarshalError::Validation(ValidationError::InvalidSignature(_)))
    ));
    assert!(body.try_parser().is_err());
    let body = MarshalledMessageBody::from_parts(
        vec![1, 0, 0, 0, 0, 0],
        vec![],
        "s".to_string(),
        order,
    );
    assert_eq!(
        body.parser().get::<&str>().unwrap_err(),
        UnmarshalError::Validation(ValidationError::StringContainsNullByte)
    );
    let body = MarshalledMessageBody::from_parts(
        vec![1, 0, 0, 0, 0xff, 0],
        vec![],
        "s".to_string(),
        order,
    );
    assert_eq!(
        body.parser().get::<&str>().unwrap_err(),
        UnmarshalError::Validation(ValidationError::InvalidUtf8)
    );
    let body = MarshalledMessageBody::from_parts(
        vec![1, 9, 0, 0, 2, 0, 0, 0],
        vec![],
        "yu".to_string(),
        order,
    );
    let mut parser = body.parser();
    assert_eq!(parser.get::<u8>().unwrap(), 1);
    assert_eq!(
        parser.get::<u32>().unwrap_err(),
        UnmarshalError::PaddingContainedData
    );
    let body =
        MarshalledMessageBody::from_parts(vec![9, 0, 0, 0, b'a'], vec![], "s".to_string(), order);
    assert_eq!(
        body.parser().get::<&str>().unwrap_err(),
        UnmarshalError::NotEnoughBytes
    );
}

#[test]
fn file_descriptors_in_bodies() {
    let body = MarshalledMessageBody::from_parts(
        vec![0, 0, 0, 0],
        vec![UnixFd::new(1234)],
        "h".to_string(),
        ByteOrder::LittleEndian,
    );
    assert_eq!(body.fds().len(), 1);
    assert_eq!(body.fds()[0].get_raw_fd(), Some(1234));
    let fds = body.get_fds();
    assert_eq!(fds.len(), 1);
    let fd = fds.into_iter().next().unwrap();
    assert_eq!(fd.take_raw_fd(), Some(1234));
    assert_eq!(body.fds()[0].get_raw_fd(), None);
}

// ---------------------------------------------------------------------------
// Headers
// ---------------------------------------------------------------------------

#[test]
fn builders() {
    let msg = MessageBuilder::new()
        .call("Member")
        .on("/obj")
        .with_interface("io.test.If")
        .at("io.test")
        .build();
    assert_eq!(msg.typ, MessageType::Call);
    assert_eq!(msg.flags, 0);
    assert_eq!(msg.dynheader.member.as_deref(), Some("Member"));
    assert_eq!(msg.dynheader.object.as_deref(), Some("/obj"));
    assert_eq!(msg.dynheader.interface.as_deref(), Some("io.test.If"));
    assert_eq!(msg.dynheader.destination.as_deref(), Some("io.test"));
    assert_eq!(msg.get_sig(), "");
    assert_eq!(msg.get_buf().len(), 0);

    let sig = MessageBuilder::with_byteorder(ByteOrder::BigEndian)
        .signal("io.test.If", "Sig", "/obj")
        .to("io.test")
        .build();
    assert_eq!(sig.typ, MessageType::Signal);
    assert_eq!(sig.body.byteorder(), ByteOrder::BigEndian);
    assert_eq!(sig.dynheader.destination.as_deref(), Some("io.test"));
    assert_eq!(MessageBuilder::default().call("M").build().typ, MessageType::Call);
    assert_eq!(MarshalledMessage::default().typ, MessageType::Invalid);
    let mut msg = MarshalledMessage::with_byteorder(ByteOrder::BigEndian);
    msg.reserve(16);
    assert_eq!(msg.body.byteorder(), ByteOrder::BigEndian);
}

#[test]
fn header_bytes() {
    let msg = MessageBuilder::new().call("M").on("/o").build();
    let mut buf = vec![9, 9];
    msg.marshal_header(Serial::new(0x0102).unwrap(), &mut buf)
        .unwrap();
    let expected: Vec<u8> = vec![
        b'l', 1, 0, 1, 0, 0, 0, 0, 2, 1, 0, 0, 26, 0, 0, 0, // start
        1, 1, b'o', 0, 2, 0, 0, 0, b'/', b'o', 0, 0, 0, 0, 0, 0, // object
        3, 1, b's', 0, 1, 0, 0, 0, b'M', 0, // member
        0, 0, 0, 0, 0, 0, // padding
    ];
    assert_eq!(buf, expected);

    let big = MessageBuilder::with_byteorder(ByteOrder::BigEndian)
        .signal("a.b", "S", "/")
        .build();
    big.marshal_header(Serial::new(1).unwrap(), &mut buf)
        .unwrap();
    assert_eq!(&buf[..12], &[b'B', 4, 0, 1, 0, 0, 0, 0, 0, 0, 0, 1]);
    assert_eq!(buf.len() % 8, 0);
}

fn read_header(buf: &[u8]) -> Result<DynamicHeader, UnmarshalError> {
    let mut ctx = UnmarshalContext {
        fds: &[],
        buf,
        byteorder: if buf[0] == b'l' {
            ByteOrder::LittleEndian
        } else {
            ByteOrder::BigEndian
        },
        offset: 12,
    };
    DynamicHeader::unmarshal(&mut ctx).map(|(_, header)| header)
}

#[test]
fn headers_are_read_back() {
    for order in [ByteOrder::LittleEndian, ByteOrder::BigEndian] {
        let mut msg = MessageBuilder::with_byteorder(order)
            .call("Member")
            .on("/obj/a")
            .with_interface("io.test.If")
            .at("io.test")
            .build();
        msg.dynheader.sender = Some(":1.5".to_string());
        msg.dynheader.response_serial = Serial::new(77);
        msg.dynheader.error_name = Some("io.test.Error".to_string());
        msg.body.push_param("text").unwrap();
        let mut buf = Vec::new();
        msg.marshal_header(Serial::new(3).unwrap(), &mut buf)
            .unwrap();
        let header = read_header(&buf).unwrap();
        assert_eq!(header.member.as_deref(), Some("Member"));
        assert_eq!(header.object.as_deref(), Some("/obj/a"));
        assert_eq!(header.interface.as_deref(), Some("io.test.If"));
        assert_eq!(header.destination.as_deref(), Some("io.test"));
        assert_eq!(header.sender.as_deref(), Some(":1.5"));
        assert_eq!(header.error_name.as_deref(), Some("io.test.Error"));
        assert_eq!(header.response_serial, Serial::new(77));
        assert_eq!(header.signature.as_deref(), Some("s"));
        assert_eq!(header.num_fds, None);
        assert!(header.validate());
    }
}

#[test]
fn headers_that_cannot_be_written() {
    let serial = Serial::new(1).unwrap();
    let mut buf = Vec::new();
    let bad = |edit: fn(&mut DynamicHeader), error: ValidationError| {
        let mut msg = MessageBuilder::new().call("M").on("/o").build();
        edit(&mut msg.dynheader);
        assert!(!msg.dynheader.validate());
        let mut buf = Vec::new();
        assert_eq!(
            msg.marshal_header(serial, &mut buf),
            Err(MarshalError::Validation(error))
        );
    };
    bad(
        |h| h.object = Some("o".to_string()),
        ValidationError::InvalidObjectPath,
    );
    bad(
        |h| h.interface = Some("nodots".to_string()),
        ValidationError::InvalidInterface,
    );
    bad(
        |h| h.member = Some("with.dots".to_string()),
        ValidationError::InvalidMembername,
    );
    bad(
        |h| h.error_name = Some("nodots".to_string()),
        ValidationError::InvalidErrorname,
    );
    bad(
        |h| h.destination = Some("a..b".to_string()),
        ValidationError::InvalidBusname,
    );
    bad(
        |h| h.sender = Some("".to_string()),
        ValidationError::InvalidBusname,
    );
    let good = MessageBuilder::new().call("M").on("/o").build();
    assert!(good.marshal_header(serial, &mut buf).is_ok());
}

#[test]
fn headers_that_cannot_be_read() {
    let msg = MessageBuilder::new().call("M").on("/o").build();
    let mut buf = Vec::new();
    msg.marshal_header(Serial::new(1).unwrap(), &mut buf)
        .unwrap();
    assert!(read_header(&buf).is_ok());
    let mut unknown = buf.clone();
    unknown[16] = 10;
    assert_eq!(
        read_header(&unknown).err().unwrap(),
        UnmarshalError::InvalidHeaderField
    );
    let mut kind = buf.clone();
    kind[16] = 5;
    assert_eq!(
        read_header(&kind).err().unwrap(),
        UnmarshalError::InvalidHeaderField
    );
    let mut long = buf.clone();
    long[12] = 200;
    assert_eq!(
        read_header(&long).err().unwrap(),
        UnmarshalError::NotEnoughBytes
    );
    let mut padding = buf.clone();
    let last = padding.len() - 1;
    padding[last] = 1;
    assert_eq!(
        read_header(&padding).err().unwrap(),
        UnmarshalError::PaddingContainedData
    );
    // A truth value that is none, in a field of another kind.
    let mut value = buf.clone();
    value[18] = b'b';
    assert_eq!(
        read_header(&value).err().unwrap(),
        UnmarshalError::Value(rustbus::wire::unmarshal::Error::InvalidBoolean)
    );
    let mut path = buf;
    path[24] = b'x';
    assert!(read_header(&path).is_err());
}

#[test]
fn responses() {
    let mut header = DynamicHeader::default();
    header.sender = Some(":1.9".to_string());
    header.serial = Serial::new(12);
    header.member = Some("M".to_string());
    let reply = header.make_response();
    assert_eq!(reply.typ, MessageType::Reply);
    assert_eq!(reply.dynheader.destination.as_deref(), Some(":1.9"));
    assert_eq!(reply.dynheader.response_serial, Serial::new(12));
    assert!(reply.dynheader.member.is_none());
    let error = header.make_error_response("io.test.Error".to_string(), Some("why".to_string()));
    assert_eq!(error.typ, MessageType::Error);
    assert_eq!(error.dynheader.error_name.as_deref(), Some("io.test.Error"));
    assert_eq!(error.body.parser().get::<&str>().unwrap(), "why");
    let error = header.make_error_response("io.test.Error".to_string(), None);
    assert_eq!(error.get_sig(), "");
    assert_eq!(header.clone().member.as_deref(), Some("M"));
}

#[test]
fn signatures() {
    assert_eq!(SigStr::new("a{sv}").unwrap().as_str(), "a{sv}");
    assert!(SigStr::new("a{").is_err());
    assert!(SigStr::new("z").is_err());
}

#[test]
fn calls_of_the_daemon() {
    let hello = standard_messages::hello();
    assert_eq!(hello.typ, MessageType::Call);
    assert_eq!(hello.dynheader.member.as_deref(), Some("Hello"));
    assert_eq!(
        hello.dynheader.object.as_deref(),
        Some("/org/freedesktop/DBus")
    );
    assert_eq!(
        hello.dynheader.interface.as_deref(),
        Some("org.freedesktop.DBus")
    );
    assert_eq!(
        hello.dynheader.destination.as_deref(),
        Some("org.freedesktop.DBus")
    );
    let request = standard_messages::request_name(
        "io.test",
        standard_messages::DBUS_NAME_FLAG_DO_NOT_QUEUE,
    );
    assert_eq!(request.get_sig(), "su");
    let (name, flags): (&str, u32) = request.body.parser().get2().unwrap();
    assert_eq!((name, flags), ("io.test", 4));
    for (msg, member) in [
        (standard_messages::release_name("x"), "ReleaseName"),
        (standard_messages::add_match("x"), "AddMatch"),
        (standard_messages::remove_match("x"), "RemoveMatch"),
    ] {
        assert_eq!(msg.dynheader.member.as_deref(), Some(member));
        assert_eq!(msg.body.parser().get::<&str>().unwrap(), "x");
    }
    // The crate of the wire format makes the same calls.
    let theirs = rustbus::standard_messages::request_name("io.test", 4);
    assert_eq!(theirs.get_buf(), request.get_buf());
    assert_eq!(theirs.get_sig(), request.get_sig());
    assert_eq!(theirs.dynheader.member, request.dynheader.member);
    assert_eq!(theirs.dynheader.object, request.dynheader.object);
    assert_eq!(theirs.dynheader.interface, request.dynheader.interface);
    assert_eq!(theirs.dynheader.destination, request.dynheader.destination);
}

#[test]
fn pairs_of_texts() {
    let mut body = MarshalledMessageBody::new();
    body.push_param2(1u8, Rb(("first", "second"))).unwrap();
    assert_eq!(body.sig(), "y(ss)");
    let mut parser = body.parser();
    assert_eq!(parser.get::<u8>().unwrap(), 1);
    let pair: (&str, &str) = parser.get().unwrap();
    assert_eq!(pair, ("first", "second"));
}
