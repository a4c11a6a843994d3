use padfoot::errors::{Error, ErrorChainable};
use padfoot::these::These;

#[test]
fn these_applies_matching_function() {
    let t: These<i32, &str> = These::These(2, "ab");
    assert_eq!(t.these(|a| a, |b| b.len() as i32, |a, b| a + b.len() as i32), 4);
    let t: These<i32, &str> = These::This(7);
    assert_eq!(t.these(|a| a, |b| b.len() as i32, |a, b| a + b.len() as i32), 7);
}

#[test]
fn merge_these_with_combines_both() {
    let t: These<i32, i32> = These::These(3, 4);
    assert_eq!(t.merge_these_with(|a| a * 10, |b| b, |x, y| x + y), 34);
    let t: These<i32, i32> = These::That(4);
    assert_eq!(t.merge_these_with(|a| a * 10, |b| b, |x, y| x + y), 4);
}

#[test]
fn map_and_bimap() {
    let t: These<i32, i32> = These::These(1, 2);
    assert_eq!(t.map(|b| b + 1), These::These(1, 3));
    let t: These<i32, i32> = These::This(1);
    assert_eq!(t.map(|b| b + 1), These::This(1));
    let t: These<i32, i32> = These::These(1, 2);
    assert_eq!(t.bimap(|a| a * 2, |b| b * 3), These::These(2, 6));
}

#[test]
fn do_this_and_do_that() {
    let t: These<i32, i32> = These::This(1);
    assert_eq!(t.do_this(|a| if *a == 1 { Err("one") } else { Ok(()) }), Err("one"));
    assert_eq!(t.do_that(|_| Err("never")), Ok(()));
    let t: These<i32, i32> = These::That(2);
    assert_eq!(t.do_that(|b| if *b == 2 { Err("two") } else { Ok(()) }), Err("two"));
    assert_eq!(t.do_this(|_| Err("never")), Ok(()));
}

#[test]
fn error_chaining() {
    assert_eq!(Some(3).error(Error::Load), Ok(3));
    assert_eq!(None::<i32>.error(Error::Load), Err(Error::Load));
    assert_eq!(Err::<i32, ()>(()).error(Error::Save), Err(Error::Save));
    assert_eq!(Error::NoPages.message(), "No pages in pdf");
}
