//! Record types built over the codec: each test type encodes and decodes its
//! fields in declaration order, as the composite traversal protocol asks.

use cereal::{DecodeError, Deserialize, Serialize};

#[derive(PartialEq, Eq, Debug)]
struct Eight {
    i8: i8,
    u8: u8,
    i16: i16,
    u16: u16,
    i32: i32,
    u32: u32,
    i64: i64,
    u64: u64,
}

impl Eight {
    fn write(&self, out: &mut Vec<u8>) -> usize {
        let mut n = 0;
        n += self.i8.serialize(out);
        n += self.u8.serialize(out);
        n += self.i16.serialize(out);
        n += self.u16.serialize(out);
        n += self.i32.serialize(out);
        n += self.u32.serialize(out);
        n += self.i64.serialize(out);
        n += self.u64.serialize(out);
        n
    }

    fn read(bytes: &mut &[u8]) -> Result<Self, DecodeError> {
        Ok(Eight {
            i8: Deserialize::deserialize(bytes)?,
            u8: Deserialize::deserialize(bytes)?,
            i16: Deserialize::deserialize(bytes)?,
            u16: Deserialize::deserialize(bytes)?,
            i32: Deserialize::deserialize(bytes)?,
            u32: Deserialize::deserialize(bytes)?,
            i64: Deserialize::deserialize(bytes)?,
            u64: Deserialize::deserialize(bytes)?,
        })
    }
}

#[test]
fn foo() {
    let input = Eight {
        i8: -42,
        u8: 42,
        i16: -2,
        u16: 4,
        i32: -655957,
        u32: 655957,
        i64: -200_000_000,
        u64: 200_000_000,
    };
    let mut bytes = vec![];
    let n = input.write(&mut bytes);
    assert_eq!(n, 19);
    let output = Eight::read(&mut &*bytes).unwrap();
    assert_eq!(input, output);
}

#[test]
fn record_of_each_integer_width() {
    let input = Eight {
        i8: -42,
        u8: 42,
        i16: -1337,
        u16: 1337,
        i32: -655957,
        u32: 655957,
        i64: -200_000_000,
        u64: 200_000_000,
    };
    let mut bytes = vec![];
    let n = input.write(&mut bytes);
    assert_eq!(n, 21);
    assert_eq!(bytes.len(), 21);
    let output = Eight::read(&mut &*bytes).unwrap();
    assert_eq!(input, output);
}

#[derive(PartialEq, Eq, Debug)]
struct Named {
    name: String,
}

impl Named {
    fn write(&self, out: &mut Vec<u8>) -> usize {
        self.name.serialize(out)
    }

    fn read(bytes: &mut &[u8]) -> Result<Self, DecodeError> {
        Ok(Named { name: Deserialize::deserialize(bytes)? })
    }
}

#[test]
fn struct_with_string() {
    let input = Named { name: "hello".to_owned() };
    let mut bytes = vec![];
    let n = input.write(&mut bytes);
    assert_eq!(n, 6);
    let output = Named::read(&mut &*bytes).unwrap();
    assert_eq!(input, output);
}

#[derive(PartialEq, Eq, Debug)]
struct Wrap<T> {
    field: T,
}

impl<T: Serialize> Wrap<T> {
    fn write(&self, out: &mut Vec<u8>) -> usize {
        self.field.serialize(out)
    }
}

impl<T> Wrap<T> {
    fn read<'de>(bytes: &mut &'de [u8]) -> Result<Self, DecodeError>
    where
        T: Deserialize<'de>,
    {
        Ok(Wrap { field: Deserialize::deserialize(bytes)? })
    }
}

#[test]
fn generic() {
    let input = Wrap { field: "hello world" };
    let mut bytes = vec![];
    let n = input.write(&mut bytes);
    assert_eq!(n, 12);
    let output = Wrap::read(&mut &*bytes).unwrap();
    assert_eq!(input, output);
}

#[derive(PartialEq, Eq, Debug)]
struct Holder {
    field: Vec<i32>,
}

impl Holder {
    fn write(&self, out: &mut Vec<u8>) -> usize {
        self.field.serialize(out)
    }

    fn read(bytes: &mut &[u8]) -> Result<Self, DecodeError> {
        Ok(Holder { field: Deserialize::deserialize(bytes)? })
    }
}

#[test]
fn vec_as_field() {
    let input = Holder { field: vec![-10, -5, 0, 5, 10] };
    let mut bytes = vec![];
    let n = input.write(&mut bytes);
    assert_eq!(n, 6);
    let output = Holder::read(&mut &*bytes).unwrap();
    assert_eq!(input, output);
}

#[derive(PartialEq, Eq, Debug)]
struct Message<'a> {
    msg: &'a str,
}

impl<'a> Message<'a> {
    fn write(&self, out: &mut Vec<u8>) -> usize {
        self.msg.serialize(out)
    }

    fn read<'de: 'a>(bytes: &mut &'de [u8]) -> Result<Self, DecodeError> {
        Ok(Message { msg: Deserialize::deserialize(bytes)? })
    }
}

#[test]
fn explicit_lifetime() {
    let input = Message { msg: "hello" };
    let mut bytes = vec![];
    let n = input.write(&mut bytes);
    assert_eq!(n, 6);
    let output = Message::read(&mut &*bytes).unwrap();
    assert_eq!(input, output);
}

#[derive(PartialEq, Eq, Debug)]
struct Trio<'a, 'b, T> {
    msg0: &'a str,
    msg1: &'b str,
    msg2: T,
}

impl<'a, 'b, T: Serialize> Trio<'a, 'b, T> {
    fn write(&self, out: &mut Vec<u8>) -> usize {
        let mut n = 0;
        n += self.msg0.serialize(out);
        n += self.msg1.serialize(out);
        n += self.msg2.serialize(out);
        n
    }
}

impl<'a, 'b, T> Trio<'a, 'b, T> {
    fn read<'de: 'a + 'b>(bytes: &mut &'de [u8]) -> Result<Self, DecodeError>
    where
        T: Deserialize<'de>,
    {
        Ok(Trio {
            msg0: Deserialize::deserialize(bytes)?,
            msg1: Deserialize::deserialize(bytes)?,
            msg2: Deserialize::deserialize(bytes)?,
        })
    }
}

#[test]
fn explicit_lifetimes_and_generic() {
    let input = Trio { msg0: "hello", msg1: "world", msg2: 42 };
    let mut bytes = vec![];
    let n = input.write(&mut bytes);
    assert_eq!(n, 13);
    let output = Trio::read(&mut &*bytes).unwrap();
    assert_eq!(input, output);
}
