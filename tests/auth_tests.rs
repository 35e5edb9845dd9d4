use xcosm::{Addr, Authorized, XcosmError};

fn a(s: &str) -> Addr {
    Addr::unchecked(s.to_string())
}

#[test]
fn many_quantifiers() {
    let auth = Authorized::Many(vec![a("x"), a("y")]);
    assert_eq!(auth.authorize_all(&vec![a("x"), a("y"), a("z")]), Err(XcosmError::Unauthorized {}));
    assert_eq!(auth.authorize_any(&vec![a("z"), a("x")]), Ok(()));
    assert_eq!(auth.authorize_at_least(&vec![a("x"), a("y"), a("z")], 2), Ok(()));
    assert_eq!(
        auth.authorize_at_least(&vec![a("x"), a("y"), a("z")], 3),
        Err(XcosmError::Unauthorized {})
    );
    assert_eq!(auth.authorize_all(&vec![a("y"), a("x")]), Ok(()));
    assert_eq!(auth.authorize_any(&vec![a("z")]), Err(XcosmError::Unauthorized {}));
}

#[test]
fn nobody_and_anybody() {
    let none: Authorized = Authorized::Nobody;
    let any: Authorized = Authorized::Any;
    for who in ["x", "y", ""] {
        assert_eq!(none.authorize(&a(who)), Err(XcosmError::Unauthorized {}));
        assert_eq!(any.authorize(&a(who)), Ok(()));
    }
}

#[test]
fn single_authorization() {
    let one = Authorized::One(a("x"));
    assert_eq!(one.authorize(&a("x")), Ok(()));
    assert_eq!(one.authorize(&a("y")), Err(XcosmError::Unauthorized {}));
    let many = Authorized::Many(vec![a("x"), a("y")]);
    assert_eq!(many.authorize(&a("y")), Ok(()));
    assert_eq!(many.authorize(&a("z")), Err(XcosmError::Unauthorized {}));
}

#[test]
fn one_requires_every_requestor_for_all() {
    let one = Authorized::One(a("x"));
    assert_eq!(one.authorize_all(&vec![a("x"), a("y")]), Err(XcosmError::Unauthorized {}));
    assert_eq!(one.authorize_all(&vec![a("x"), a("x")]), Ok(()));
    assert_eq!(one.authorize_any(&vec![a("y"), a("x")]), Ok(()));
    assert_eq!(one.authorize_at_least(&vec![a("x"), a("y"), a("x")], 2), Ok(()));
    assert_eq!(one.authorize_at_least(&vec![a("x"), a("y")], 2), Err(XcosmError::Unauthorized {}));
}

#[test]
fn empty_requestor_lists() {
    let any: Authorized = Authorized::Any;
    let none: Authorized = Authorized::Nobody;
    assert_eq!(none.authorize_all(&vec![]), Ok(()));
    assert_eq!(any.authorize_all(&vec![]), Ok(()));
    assert_eq!(any.authorize_any(&vec![]), Err(XcosmError::Unauthorized {}));
    assert_eq!(none.authorize_at_least(&vec![], 0), Ok(()));
    assert_eq!(none.authorize_at_least(&vec![a("x")], 0), Ok(()));
    assert_eq!(none.authorize_at_least(&vec![a("x")], 1), Err(XcosmError::Unauthorized {}));
    assert_eq!(any.authorize_at_least(&vec![a("x"), a("y")], 2), Ok(()));
    assert_eq!(any.authorize_at_least(&vec![a("x"), a("y")], 3), Err(XcosmError::Unauthorized {}));
}

#[test]
fn new_from_group_sizes() {
    let empty: Vec<Addr> = vec![];
    assert_eq!(Authorized::new(&empty[..]), Authorized::Nobody);
    assert_eq!(Authorized::new(&[a("x")][..]), Authorized::One(a("x")));
    assert_eq!(Authorized::new(&[a("x"), a("y")][..]), Authorized::Many(vec![a("x"), a("y")]));
    let d: Authorized = Authorized::default();
    assert_eq!(d, Authorized::Nobody);
}

#[test]
fn members_of_policies() {
    assert_eq!(Authorized::Many(vec![a("x"), a("y")]).members(), vec![a("x"), a("y")]);
    assert_eq!(Authorized::One(a("x")).members(), vec![a("x")]);
    assert!(Authorized::<Addr>::Any.members().is_empty());
    assert!(Authorized::<Addr>::Nobody.members().is_empty());
}

#[test]
fn string_identities() {
    let auth = Authorized::Many(vec!["x".to_string(), "y".to_string()]);
    assert_eq!(auth.authorize(&"y".to_string()), Ok(()));
    assert_eq!(auth.authorize(&"z".to_string()), Err(XcosmError::Unauthorized {}));
}
