use codespan_preprocessed::EasyLocated;
use codespan_preprocessed::EasyLocator;

#[test]
fn mapping() {
    let x = (0..2).locate(2.5);
    let y: EasyLocated<_> = x.map(|x| (x * 2.) as u32);

    assert_eq!(*y.value(), 5);
    assert_eq!(*y.location(), 0..2);

    let x = (0..2).locate(Some(2));
    let y = x.transpose().unwrap();
    assert_eq!(*y.value(), 2);
}

#[test]
fn new_and_into_inner() {
    let x = EasyLocated::new("payload", 3..9);
    assert_eq!(*x.location(), 3..9);
    assert_eq!(*x.value(), "payload");
    assert_eq!(x.into_inner(), "payload");
}

#[test]
fn clone_keeps_location() {
    let x = EasyLocated::new(7u32, 1..4);
    let y = x.clone();
    assert_eq!(*y.location(), 1..4);
    assert_eq!(*y.value(), 7);
}

#[test]
fn transpose_option_none() {
    let x: EasyLocated<Option<u8>> = (5..6).locate(None);
    assert!(x.transpose().is_none());
}

#[test]
fn and_then_option() {
    let x = (0..3).locate(Some(10u32));
    let y = x.and_then(|v| if v > 5 { Some(v + 1) } else { None });
    assert_eq!(*y.location(), 0..3);
    assert_eq!(*y.value(), Some(11));

    let z: EasyLocated<Option<u32>> = (0..3).locate(None);
    let w = z.and_then(|v: u32| Some(v));
    assert_eq!(*w.value(), None);
}

#[test]
fn transpose_result() {
    let ok: EasyLocated<Result<u8, &str>> = (2..4).locate(Ok(1));
    let y = ok.transpose().unwrap();
    assert_eq!(*y.value(), 1);
    assert_eq!(*y.location(), 2..4);

    let err: EasyLocated<Result<u8, &str>> = (2..4).locate(Err("boom"));
    assert_eq!(err.transpose().unwrap_err(), "boom");
}

#[test]
fn transpose_with_located_err() {
    let err: EasyLocated<Result<u8, &str>> = (2..4).locate(Err("boom"));
    let e = err.transpose_with_located_err().unwrap_err();
    assert_eq!(*e.value(), "boom");
    assert_eq!(*e.location(), 2..4);
}

#[test]
fn and_then_result() {
    let x: EasyLocated<Result<u8, &str>> = (1..2).locate(Ok(3));
    let y = x.and_then(|v| if v > 0 { Ok(v * 2) } else { Err("neg") });
    assert_eq!(*y.value(), Ok(6));
    assert_eq!(*y.location(), 1..2);
}

#[test]
fn locate_from_located() {
    let x = EasyLocated::new('a', 8..12);
    let y = x.locate(99u8);
    assert_eq!(*y.location(), 8..12);
    assert_eq!(*y.value(), 99);
}
