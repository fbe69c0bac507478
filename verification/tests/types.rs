use phprs::ast::{Span, Type};
use phprs::types::{
    build_class_registry, type_eq, ClassDecl, ClassInfo, ClassRegistry, MethodDecl, MethodInfo, TypeChecker,
    TypeError,
};

fn s(x: &str) -> String {
    String::from(x)
}

fn class(name: &str, parent: Option<&str>, is_final: bool, methods: Vec<MethodInfo>) -> ClassInfo {
    ClassInfo { name: s(name), parent: parent.map(s), is_final, methods }
}

fn method(name: &str, is_final: bool, return_type: Type) -> MethodInfo {
    MethodInfo { name: s(name), is_final, return_type }
}

fn decl(name: &str, return_type: Type, is_abstract: bool, has_body: bool, at: usize) -> MethodDecl {
    MethodDecl { name: s(name), return_type, is_abstract, has_body, span: Span::new(at, at + 1) }
}

fn checker() -> TypeChecker {
    TypeChecker::new(build_class_registry(vec![
        class("Animal", None, false, vec![method("speak", false, Type::String), method("id", true, Type::Int)]),
        class("Dog", Some("Animal"), false, vec![method("fetch", false, Type::Void)]),
        class("Puppy", Some("Dog"), true, vec![]),
        class("Cat", Some("Animal"), false, vec![]),
    ]))
}

#[test]
fn same_types_compare_structurally() {
    assert!(type_eq(&Type::Nullable(Box::new(Type::Class(s("A")))), &Type::Nullable(Box::new(Type::Class(s("A"))))));
    assert!(!type_eq(&Type::Class(s("A")), &Type::Class(s("B"))));
    assert!(!type_eq(&Type::Class(s("int")), &Type::Int));
    let c1 = Type::Closure(vec![Type::Int, Type::String], Box::new(Type::Bool));
    let c2 = Type::Closure(vec![Type::Int, Type::String], Box::new(Type::Bool));
    let c3 = Type::Closure(vec![Type::Int], Box::new(Type::Bool));
    assert!(type_eq(&c1, &c2));
    assert!(!type_eq(&c1, &c3));
}

#[test]
fn compatibility_rules() {
    let tc = checker();
    assert!(tc.types_compatible(&Type::Int, &Type::Int));
    assert!(tc.types_compatible(&Type::Float, &Type::Int));
    assert!(!tc.types_compatible(&Type::Int, &Type::Float));
    assert!(tc.types_compatible(&Type::Unknown, &Type::String));
    assert!(tc.types_compatible(&Type::String, &Type::Unknown));
    assert!(tc.types_compatible(&Type::Class(s("Animal")), &Type::Class(s("Puppy"))));
    assert!(!tc.types_compatible(&Type::Class(s("Dog")), &Type::Class(s("Animal"))));
    assert!(!tc.types_compatible(&Type::Class(s("Dog")), &Type::Class(s("Cat"))));
    assert!(tc.types_compatible(&Type::Nullable(Box::new(Type::Float)), &Type::Int));
    assert!(!tc.types_compatible(&Type::Nullable(Box::new(Type::Int)), &Type::String));
}

#[test]
fn registry_lookups() {
    let tc = checker();
    let reg: &ClassRegistry = &tc.registry;
    assert!(reg.class_exists("Cat"));
    assert!(!reg.class_exists("Fish"));
    assert!(reg.is_subclass("Puppy", "Animal"));
    assert!(!reg.is_subclass("Animal", "Animal"));
    assert_eq!(reg.get_method("Puppy", "speak").map(|m| m.is_final), Some(false));
    assert_eq!(reg.get_method("Dog", "fetch").map(|m| m.name.clone()), Some(s("fetch")));
    assert!(reg.get_method("Cat", "fetch").is_none());
}

#[test]
fn later_registration_replaces_earlier() {
    let mut reg = ClassRegistry::new();
    reg.register_class(class("A", None, false, vec![]));
    reg.register_class(class("A", None, true, vec![]));
    assert_eq!(reg.classes.len(), 1);
    assert!(reg.classes[0].is_final);
}

#[test]
fn override_rules() {
    let tc = checker();
    let parent = Some(s("Dog"));
    assert_eq!(
        tc.check_method(&parent, &decl("id", Type::Int, false, true, 3)),
        Err(TypeError::FinalOverride { span: Span::new(3, 4) })
    );
    assert_eq!(
        tc.check_method(&parent, &decl("speak", Type::Int, false, true, 5)),
        Err(TypeError::IncompatibleReturn { span: Span::new(5, 6) })
    );
    assert_eq!(tc.check_method(&parent, &decl("speak", Type::String, false, true, 5)), Ok(()));
    assert_eq!(
        tc.check_method(&None, &decl("run", Type::Void, true, true, 7)),
        Err(TypeError::AbstractWithBody { span: Span::new(7, 8) })
    );
    assert_eq!(tc.check_method(&None, &decl("run", Type::Void, true, false, 7)), Ok(()));
}

#[test]
fn class_rules() {
    let tc = checker();
    let ok = ClassDecl {
        name: s("Beagle"),
        parent: Some(s("Dog")),
        methods: vec![decl("fetch", Type::Void, false, true, 1)],
        span: Span::new(0, 9),
    };
    assert_eq!(tc.check_class(&ok), Ok(()));
    let missing = ClassDecl { name: s("X"), parent: Some(s("Fish")), methods: vec![], span: Span::new(0, 1) };
    assert_eq!(tc.check_class(&missing), Err(TypeError::ParentNotFound { span: Span::new(0, 1) }));
    let sealed = ClassDecl { name: s("Y"), parent: Some(s("Puppy")), methods: vec![], span: Span::new(2, 3) };
    assert_eq!(tc.check_class(&sealed), Err(TypeError::FinalParent { span: Span::new(2, 3) }));
    let bad = ClassDecl {
        name: s("Z"),
        parent: Some(s("Animal")),
        methods: vec![decl("speak", Type::String, false, true, 1), decl("id", Type::Int, false, true, 4)],
        span: Span::new(0, 9),
    };
    assert_eq!(tc.check_class(&bad), Err(TypeError::FinalOverride { span: Span::new(4, 5) }));
}
