use shudu::candidates::Candidates;

fn digits_of(cs: &Candidates) -> String {
    let mut a = String::new();
    let mut it = cs.iter();
    while let Some(c) = it.next() {
        a.push_str(&c.to_string());
    }
    a
}

#[test]
fn basic_default() {
    let cs = Candidates::new();
    assert_eq!("123456789", cs.to_string());
    assert_eq!(true, cs.is_valid());
    assert_eq!(false, cs.is_done());
    assert_eq!(9, cs.len());
    let a = digits_of(&cs);
    assert_eq!("123456789", a);

    let cs = Candidates::from('.');
    assert_eq!("123456789", cs.to_string());
    assert_eq!(9, cs.len());
    let a = digits_of(&cs);
    assert_eq!("123456789", a);
}

#[test]
fn basic_single() {
    let cs = Candidates::from('5');
    assert_eq!("5", cs.to_string());
    assert_eq!(true, cs.is_valid());
    assert_eq!(true, cs.is_done());
    assert_eq!(1, cs.len());
    let a = digits_of(&cs);
    assert_eq!("5", a);
}

#[test]
fn pop() {
    let mut cs = Candidates::new();

    assert_eq!('1', cs.pop().unwrap().lucky());
    assert_eq!('2', cs.pop().unwrap().lucky());
    assert_eq!('3', cs.pop().unwrap().lucky());
    assert_eq!('4', cs.pop().unwrap().lucky());
    assert_eq!('5', cs.pop().unwrap().lucky());
    assert_eq!('6', cs.pop().unwrap().lucky());
    assert_eq!('7', cs.pop().unwrap().lucky());
    assert_eq!('8', cs.pop().unwrap().lucky());
    assert_eq!('9', cs.pop().unwrap().lucky());

    assert_eq!(None, cs.pop());
    assert_eq!("X", cs.to_string());
    assert_eq!('X', cs.lucky());

    assert_eq!(false, cs.is_valid());
    // we know it's not right, but it's OK after review all cases
    assert_eq!(true, cs.is_done());
}

#[test]
fn union() {
    let cs2 = Candidates::from('2');
    let cs3 = Candidates::from('3');
    let cs8 = Candidates::from('8');

    let cs238 = Candidates::union(cs2, cs3, cs8);
    assert_eq!("238", cs238.to_string());

    let cs23 = Candidates::union(cs2, cs3, cs3);
    assert_eq!("23", cs23.to_string());

    let cs8 = Candidates::union(cs8, cs8, cs8);
    assert_eq!("8", cs8.to_string());
}

#[test]
fn substract() {
    let mut cs = Candidates::new();
    let cs2 = Candidates::new();
    cs.substract(&cs2);
    assert_eq!("X", cs.to_string());
    assert_eq!(false, cs.is_valid());

    let cs3 = Candidates::from('3');
    let cs4 = Candidates::from('4');
    let cs8 = Candidates::from('8');

    let cs348 = Candidates::union(cs3, cs4, cs8);
    let mut cs = Candidates::new();
    cs.substract(&cs348);
    assert_eq!("125679", cs.to_string());

    let cs38 = Candidates::union(cs3, cs3, cs8);
    let mut cs = cs348;
    cs.substract(&cs38);
    assert_eq!("4", cs.to_string());
    cs.substract(&cs3);
    assert_eq!("4", cs.to_string());

    cs.substract(&cs4);
    assert_eq!("X", cs.to_string());
}

#[test]
fn union_argument_order() {
    let a = Candidates::from('1');
    let b = Candidates::from('7');
    let c = Candidates::from('4');
    let u1 = Candidates::union(a, b, c);
    let u2 = Candidates::union(c, b, a);
    let u3 = Candidates::union(b, a, c);
    assert_eq!(u1, u2);
    assert_eq!(u1, u3);
    assert_eq!("147", u1.to_string());
}

#[test]
fn substract_never_grows() {
    let a = Candidates::new();
    let b = Candidates::from('6');
    let mut c = a;
    c.substract(&b);
    assert!(c.len() <= a.len());
    assert_eq!(8, c.len());

    let mut d = b;
    d.substract(&b);
    assert_eq!(0, d.len());
    assert!(d.is_empty());
}

#[test]
fn pop_enumerates_each_digit_once() {
    let cs4 = Candidates::from('4');
    let cs6 = Candidates::from('6');
    let cs9 = Candidates::from('9');
    let mut cs = Candidates::union(cs4, cs6, cs9);
    let mut seen = String::new();
    while let Some(c) = cs.pop() {
        assert_eq!(1, c.len());
        seen.push(c.lucky());
    }
    assert_eq!("469", seen);
    assert!(cs.is_empty());
}

#[test]
fn iter_matches_pop_order() {
    let cs = Candidates::new();
    let mut it = cs.iter();
    let mut copy = cs;
    loop {
        let a = it.next();
        let b = copy.pop();
        assert_eq!(a, b);
        if a.is_none() {
            break;
        }
    }
    // iterating never drains the set itself
    assert_eq!(9, cs.len());
}
