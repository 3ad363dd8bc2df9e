use pack_boundaries::check::check;
use pack_boundaries::extract::extract;
use pack_boundaries::index::{resolve, Definition};
use pack_boundaries::lint::{lint_package, lint_package_yml_files, render_package};
use pack_boundaries::load::{load_configuration, parse_package, ConfigError};
use pack_boundaries::model::{Configuration, Enforcement, Package, SourceFile, ViolationKind};
use pack_boundaries::path::owning_package;
use pack_boundaries::update::update;
use pack_boundaries::validate::{validate, ValidateError};

fn bytes(s: &str) -> Vec<u8> {
    s.as_bytes().to_vec()
}

fn package(root: &str, dependencies: &[&str]) -> Package {
    Package {
        root: bytes(root),
        dependencies: dependencies.iter().map(|d| bytes(d)).collect(),
        enforce_dependencies: Enforcement::Enforced,
        enforce_privacy: Enforcement::Enforced,
        permissive: false,
        private_constants: Vec::new(),
        privacy_allow_list: Vec::new(),
    }
}

fn file(path: &str, content: &str) -> SourceFile {
    SourceFile { path: bytes(path), content: bytes(content) }
}

fn widget_files() -> Vec<SourceFile> {
    vec![
        file("a/widget.src", "class A::Widget\nend\n"),
        file("b/user.src", "x = A::Widget.new\n"),
    ]
}

#[test]
fn undeclared_dependency_is_reported() {
    let config = Configuration { packages: vec![package("a/", &[]), package("b/", &[])] };
    let report = check(&config, &widget_files(), &vec![bytes("b/user.src")]).unwrap();
    assert_eq!(report.violations.len(), 1);
    let v = &report.violations[0];
    assert_eq!(v.kind, ViolationKind::Dependency);
    assert_eq!(v.referencing_package, 1);
    assert_eq!(v.referenced_package, 0);
    assert_eq!(v.file, 1);
    assert_eq!(v.reference.name, bytes("A::Widget"));
    assert_eq!(v.reference.line, 1);
    assert_eq!(v.reference.column, 5);
}

#[test]
fn declared_dependency_is_clean() {
    let config = Configuration { packages: vec![package("a/", &[]), package("b/", &["a/"])] };
    let report = check(&config, &widget_files(), &vec![bytes("b/user.src")]).unwrap();
    assert_eq!(report.violations.len(), 0);
    let whole = check(&config, &widget_files(), &Vec::new()).unwrap();
    assert_eq!(whole.violations.len(), 0);
}

#[test]
fn privatized_constant_is_reported() {
    let mut a = package("a/", &[]);
    a.private_constants = vec![bytes("A::Widget")];
    let config = Configuration { packages: vec![a, package("b/", &["a/"])] };
    let report = check(&config, &widget_files(), &vec![bytes("b/user.src")]).unwrap();
    assert_eq!(report.violations.len(), 1);
    assert_eq!(report.violations[0].kind, ViolationKind::Privacy);
    assert_eq!(report.violations[0].referencing_package, 1);
    assert_eq!(report.violations[0].referenced_package, 0);
}

#[test]
fn allow_list_admits_private_use() {
    let mut a = package("a/", &[]);
    a.private_constants = vec![bytes("A::Widget")];
    a.privacy_allow_list = vec![bytes("b/")];
    let config = Configuration { packages: vec![a, package("b/", &["a/"])] };
    let report = check(&config, &widget_files(), &Vec::new()).unwrap();
    assert_eq!(report.violations.len(), 0);
}

#[test]
fn both_rules_can_fire_on_one_reference() {
    let mut a = package("a/", &[]);
    a.private_constants = vec![bytes("A::")];
    let config = Configuration { packages: vec![a, package("b/", &[])] };
    let report = check(&config, &widget_files(), &Vec::new()).unwrap();
    assert_eq!(report.violations.len(), 2);
    assert_eq!(report.violations[0].kind, ViolationKind::Dependency);
    assert_eq!(report.violations[1].kind, ViolationKind::Privacy);
}

#[test]
fn lenient_and_permissive_packages_are_not_reported() {
    let mut b = package("b/", &[]);
    b.enforce_dependencies = Enforcement::Lenient;
    let config = Configuration { packages: vec![package("a/", &[]), b] };
    assert_eq!(check(&config, &widget_files(), &Vec::new()).unwrap().violations.len(), 0);
    let mut a = package("a/", &[]);
    a.permissive = true;
    let config = Configuration { packages: vec![a, package("b/", &[])] };
    assert_eq!(check(&config, &widget_files(), &Vec::new()).unwrap().violations.len(), 0);
}

#[test]
fn restriction_skips_unlisted_files() {
    let config = Configuration { packages: vec![package("a/", &[]), package("b/", &[])] };
    let report = check(&config, &widget_files(), &vec![bytes("a/widget.src")]).unwrap();
    assert_eq!(report.violations.len(), 0);
}

#[test]
fn self_reference_is_never_a_violation() {
    let mut a = package("a/", &[]);
    a.private_constants = vec![bytes("A::")];
    let config = Configuration { packages: vec![a] };
    let files = vec![
        file("a/widget.src", "class A::Widget\nend\n"),
        file("a/other.src", "A::Widget.new\n"),
    ];
    assert_eq!(check(&config, &files, &Vec::new()).unwrap().violations.len(), 0);
}

#[test]
fn duplicate_roots_fail_the_check() {
    let config = Configuration { packages: vec![package("a/", &[]), package("a/", &[])] };
    let e = check(&config, &widget_files(), &Vec::new()).unwrap_err();
    assert_eq!((e.first, e.second), (0, 1));
}

#[test]
fn malformed_region_keeps_earlier_references() {
    let content = bytes("x = A::Widget\ny = \"unclosed\nz = B::Thing\n");
    let ex = extract(3, &content);
    assert_eq!(ex.references.len(), 2);
    assert_eq!(ex.references[0].name, bytes("A::Widget"));
    assert_eq!(ex.references[1].name, bytes("B::Thing"));
    assert_eq!((ex.references[1].line, ex.references[1].column), (3, 5));
    let w = ex.warning.unwrap();
    assert_eq!((w.file, w.offset, w.line, w.column), (3, 18, 2, 5));

    let config = Configuration { packages: vec![package("a/", &[]), package("b/", &[])] };
    let files = vec![
        file("a/widget.src", "class A::Widget\nend\n"),
        file("b/user.src", "x = A::Widget\ny = \"unclosed\nz = A::Widget\n"),
    ];
    let report = check(&config, &files, &Vec::new()).unwrap();
    assert_eq!(report.warnings.len(), 1);
    assert_eq!(report.warnings[0].file, 1);
    assert_eq!(report.violations.len(), 2);
    assert_eq!(report.violations[1].reference.line, 3);
}

#[test]
fn only_the_first_unclosed_string_is_reported() {
    let content = bytes("\"one\n\"two\nC::D\n");
    let ex = extract(0, &content);
    let w = ex.warning.unwrap();
    assert_eq!((w.offset, w.line, w.column), (0, 1, 1));
    assert_eq!(ex.references.len(), 1);
    assert_eq!((ex.references[0].offset, ex.references[0].line), (10, 3));
}

#[test]
fn extraction_reads_comments_strings_and_definitions() {
    let content = bytes("# A::Hidden\nmodule Outer::Inner\n  s = \"Not::This\"\n  Foo::Bar::Baz.call(Qux)\nend\n");
    let ex = extract(0, &content);
    assert!(ex.warning.is_none());
    assert_eq!(ex.definitions.len(), 1);
    assert_eq!(ex.definitions[0].name, bytes("Outer::Inner"));
    let names: Vec<Vec<u8>> = ex.references.iter().map(|r| r.name.clone()).collect();
    assert_eq!(names, vec![bytes("Foo::Bar::Baz"), bytes("Qux")]);
    assert_eq!((ex.references[0].line, ex.references[0].column), (4, 3));
}

#[test]
fn first_definition_wins() {
    let index = vec![
        Definition { name: bytes("A::Widget"), file: 4 },
        Definition { name: bytes("A::Widget"), file: 2 },
    ];
    assert_eq!(resolve(&index, &bytes("A::Widget")), Some(4));
    assert_eq!(resolve(&index, &bytes("A::Gadget")), None);
}

#[test]
fn deepest_root_owns_the_file() {
    let packages = vec![package("a/", &[]), package("a/b/", &[]), package("c/", &[])];
    assert_eq!(owning_package(&packages, &bytes("a/b/x.src")), Some(1));
    assert_eq!(owning_package(&packages, &bytes("a/x.src")), Some(0));
    assert_eq!(owning_package(&packages, &bytes("c/d/y.src")), Some(2));
    assert_eq!(owning_package(&packages, &bytes("ab/x.src")), None);
    assert_eq!(owning_package(&packages, &bytes("z.src")), None);
}

#[test]
fn validate_reports_unknown_dependency() {
    let config = Configuration { packages: vec![package("a/", &[]), package("b/", &["c/"])] };
    match validate(&config) {
        Err(ValidateError::UnknownDependency { package, dependency }) => {
            assert_eq!(package, 1);
            assert_eq!(dependency, bytes("c/"));
        }
        other => panic!("unexpected outcome {:?}", other),
    }
    let good = Configuration { packages: vec![package("a/", &[]), package("b/", &["a/"])] };
    assert!(validate(&good).is_ok());
    let twice = Configuration { packages: vec![package("a/", &[]), package("a/", &[])] };
    assert!(matches!(validate(&twice), Err(ValidateError::DuplicateRoot { first: 0, second: 1 })));
}

#[test]
fn update_adds_used_packages_once() {
    let config = Configuration { packages: vec![package("a/", &[]), package("b/", &["x/"])] };
    let files = vec![
        file("a/widget.src", "class A::Widget\nend\n"),
        file("b/user.src", "A::Widget.new\nA::Widget.old\n"),
    ];
    let first = update(&config, &files).unwrap();
    assert_eq!(first.packages[0].dependencies.len(), 0);
    assert_eq!(first.packages[1].dependencies, vec![bytes("x/"), bytes("a/")]);
    let second = update(&first, &files).unwrap();
    assert_eq!(second.packages[1].dependencies, first.packages[1].dependencies);
    assert_eq!(check(&first, &files, &Vec::new()).unwrap().violations.len(), 0);
}

#[test]
fn lint_rewrites_only_non_canonical_text() {
    let mut p = package("b/", &["a/"]);
    p.enforce_privacy = Enforcement::Off;
    p.private_constants = vec![bytes("B::Secret")];
    let canonical = render_package(&p);
    let expected = "root: b/\nenforce_dependencies: true\nenforce_privacy: false\npermissive: false\n\
dependencies:\n  - a/\nprivate_constants:\n  - B::Secret\nprivacy_allow_list:\n";
    assert_eq!(canonical, bytes(expected));
    assert_eq!(lint_package(&canonical, &p), None);
    let rewritten = lint_package(&bytes("dependencies: [a/]\nroot: b/\n"), &p).unwrap();
    assert_eq!(rewritten, canonical);
    assert_eq!(lint_package(&rewritten, &p), None);

    let config = Configuration { packages: vec![p.clone(), package("a/", &[])] };
    let out = lint_package_yml_files(&config, &vec![canonical.clone(), Vec::new()]);
    assert_eq!(out[0], None);
    assert_eq!(out[1], Some(render_package(&config.packages[1])));
}

#[test]
fn earliest_file_settles_duplicate_definitions() {
    let config = Configuration {
        packages: vec![package("a/", &[]), package("b/", &["c/"]), package("c/", &[])],
    };
    let files = vec![
        file("a/widget.src", "class A::Widget\nend\n"),
        file("b/user.src", "A::Widget.new\n"),
        file("c/widget.src", "class A::Widget\nend\n"),
    ];
    let report = check(&config, &files, &Vec::new()).unwrap();
    assert_eq!(report.violations.len(), 1);
    assert_eq!(report.violations[0].referenced_package, 0);

    let reordered = vec![
        file("c/widget.src", "class A::Widget\nend\n"),
        file("b/user.src", "A::Widget.new\n"),
        file("a/widget.src", "class A::Widget\nend\n"),
    ];
    assert_eq!(check(&config, &reordered, &Vec::new()).unwrap().violations.len(), 0);
}

#[test]
fn unowned_and_unresolved_references_are_skipped() {
    let config = Configuration { packages: vec![package("a/", &[]), package("b/", &[])] };
    let files = vec![
        file("a/widget.src", "class A::Widget\nend\n"),
        file("script.src", "A::Widget.new\n"),
        file("b/user.src", "Unknown::Thing.new\n"),
    ];
    let report = check(&config, &files, &Vec::new()).unwrap();
    assert_eq!(report.violations.len(), 0);
    assert_eq!(report.warnings.len(), 0);
}

#[test]
fn metadata_reads_in_any_key_order() {
    let text = bytes(
        "dependencies:\n  - a/\n  - c/\n\npermissive: true\nroot: b/\nenforce_privacy: lenient\n\
private_constants:\n  - B::Secret\nenforce_dependencies: false\n",
    );
    let p = parse_package(&text).unwrap();
    assert_eq!(p.root, bytes("b/"));
    assert_eq!(p.dependencies, vec![bytes("a/"), bytes("c/")]);
    assert_eq!(p.enforce_dependencies, Enforcement::Off);
    assert_eq!(p.enforce_privacy, Enforcement::Lenient);
    assert!(p.permissive);
    assert_eq!(p.private_constants, vec![bytes("B::Secret")]);
    assert!(p.privacy_allow_list.is_empty());
}

#[test]
fn metadata_round_trips_through_canonical_text() {
    let mut p = package("b/", &["a/", "c/"]);
    p.enforce_privacy = Enforcement::Lenient;
    p.permissive = true;
    p.private_constants = vec![bytes("B::Secret")];
    p.privacy_allow_list = vec![bytes("a/")];
    let text = render_package(&p);
    let back = parse_package(&text).unwrap();
    assert_eq!(render_package(&back), text);
    assert_eq!(back.dependencies, p.dependencies);
    assert_eq!(back.privacy_allow_list, p.privacy_allow_list);
}

#[test]
fn malformed_metadata_names_its_line() {
    assert_eq!(parse_package(&bytes("root: a/\nenforce_privacy: maybe\n")).unwrap_err(), 2);
    assert_eq!(parse_package(&bytes("  - a/\n")).unwrap_err(), 1);
    assert_eq!(parse_package(&bytes("root: a/\n\nowner: me\n")).unwrap_err(), 3);
    let empty = parse_package(&Vec::new()).unwrap();
    assert!(empty.root.is_empty());
    assert_eq!(empty.enforce_dependencies, Enforcement::Enforced);
}

#[test]
fn loading_builds_the_catalog() {
    let texts = vec![bytes("root: a/\n"), bytes("root: b/\ndependencies:\n  - a/\n")];
    let config = load_configuration(&texts).unwrap();
    assert_eq!(config.packages.len(), 2);
    assert_eq!(config.packages[1].dependencies, vec![bytes("a/")]);
    assert!(validate(&config).is_ok());

    let bad = vec![bytes("root: a/\n"), bytes("root b/\n")];
    assert_eq!(load_configuration(&bad).unwrap_err(), ConfigError::Malformed { file: 1, line: 1 });
    let twice = vec![bytes("root: a/\n"), bytes("permissive: true\nroot: a/\n")];
    assert_eq!(
        load_configuration(&twice).unwrap_err(),
        ConfigError::DuplicateRoot { first: 0, second: 1 }
    );
}

#[test]
fn update_covers_uses_whatever_the_enforcement() {
    let mut b = package("b/", &[]);
    b.enforce_dependencies = Enforcement::Lenient;
    let config = Configuration { packages: vec![package("a/", &[]), b] };
    assert_eq!(check(&config, &widget_files(), &Vec::new()).unwrap().violations.len(), 0);
    let updated = update(&config, &widget_files()).unwrap();
    assert_eq!(updated.packages[1].dependencies, vec![bytes("a/")]);
    assert_eq!(updated.packages[1].enforce_dependencies, Enforcement::Lenient);

    let mut a = package("a/", &[]);
    a.permissive = true;
    let config = Configuration { packages: vec![a, package("b/", &[])] };
    let updated = update(&config, &widget_files()).unwrap();
    assert_eq!(updated.packages[1].dependencies, vec![bytes("a/")]);
    assert!(updated.packages[0].dependencies.is_empty());
}

#[test]
fn violations_carry_positions_and_are_not_repeated() {
    let config = Configuration { packages: vec![package("a/", &[]), package("b/", &[])] };
    let files = vec![
        file("a/widget.src", "class A::Widget\nend\n"),
        file("b/user.src", "# use\n  A::Widget.new\nA::Widget\n"),
    ];
    let report = check(&config, &files, &Vec::new()).unwrap();
    assert_eq!(report.violations.len(), 2);
    let first = &report.violations[0].reference;
    let second = &report.violations[1].reference;
    assert_eq!((first.offset, first.line, first.column), (8, 2, 3));
    assert_eq!((second.offset, second.line, second.column), (22, 3, 1));
}
