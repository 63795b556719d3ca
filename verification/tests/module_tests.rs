use oal_compiler::errors::{Error, Kind};
use oal_compiler::locator::Locator;
use oal_compiler::module::{Import, ModuleGraph};
use oal_compiler::modset::ModuleSet;

/// Loads a program whose modules import one another as `imports` says, with
/// the modules that `valid` accepts, and returns the compilation order.
fn load(
    base: &str,
    imports: &dyn Fn(&str) -> Vec<&'static str>,
    valid: &dyn Fn(&str) -> bool,
) -> Result<Vec<String>, Error> {
    let mut graph = ModuleGraph::new(Locator::new(base));
    while let Some(n) = graph.next_pending() {
        let url = graph.locator(n).url().to_owned();
        let list = imports(&url)
            .into_iter()
            .map(|i| Import {
                loc: Locator::new(i),
                valid: valid(i),
                span: None,
            })
            .collect();
        graph.add_imports(n, list)?;
    }
    let order = graph.compile_order()?;
    Ok(order
        .into_iter()
        .map(|n| graph.locator(n).url().to_owned())
        .collect())
}

#[test]
fn module_cycle() {
    let err = load(
        "file:///base.oal",
        &|m| match m {
            "file:///base.oal" => vec!["file:///module.oal"],
            "file:///module.oal" => vec!["file:///base.oal"],
            _ => unreachable!(),
        },
        &|m| m == "file:///module.oal" || m == "file:///base.oal",
    )
    .expect_err("expected an error");

    assert!(matches!(err.kind, Kind::CycleDetected));
}

#[test]
fn module_sort() {
    let order = load(
        "file:///base.oal",
        &|m| match m {
            "file:///base.oal" => vec!["file:///module2.oal"],
            "file:///module1.oal" => vec![],
            "file:///module2.oal" => vec!["file:///module1.oal"],
            _ => unreachable!(),
        },
        &|m| m == "file:///module1.oal" || m == "file:///module2.oal",
    )
    .ok()
    .expect("loading failed");

    assert_eq!(order.len(), 3, "expected 3 compilation units");
    assert_eq!(order[0], "file:///module1.oal", "expect module1 to be compiled first");
    assert_eq!(order[1], "file:///module2.oal", "expect module2 to be compiled second");
    assert_eq!(order[2], "file:///base.oal", "expect base to be compiled last");
}

#[test]
fn module_invalid() {
    let err = load(
        "file:///base.oal",
        &|_| vec!["file:///invalid.oal"],
        &|m| {
            assert_eq!(m, "file:///invalid.oal");
            false
        },
    )
    .expect_err("expected an error");

    assert!(matches!(err.kind, Kind::InvalidModule(_)));
    assert_eq!(err.message(), "invalid module: file:///invalid.oal");
}

#[test]
fn shared_import_is_loaded_once() {
    let order = load(
        "file:///base.oal",
        &|m| match m {
            "file:///base.oal" => vec!["file:///a.oal", "file:///b.oal"],
            "file:///a.oal" => vec!["file:///c.oal"],
            "file:///b.oal" => vec!["file:///c.oal"],
            "file:///c.oal" => vec![],
            _ => unreachable!(),
        },
        &|_| true,
    )
    .ok()
    .expect("loading failed");
    assert_eq!(order.len(), 4);
    assert_eq!(order[3], "file:///base.oal");
    let pos = |m: &str| order.iter().position(|x| x == m).unwrap();
    assert!(pos("file:///c.oal") < pos("file:///a.oal"));
    assert!(pos("file:///c.oal") < pos("file:///b.oal"));
}

#[test]
fn self_import_is_a_cycle() {
    let err = load(
        "file:///base.oal",
        &|_| vec!["file:///base.oal"],
        &|_| true,
    )
    .expect_err("expected an error");
    assert!(matches!(err.kind, Kind::CycleDetected));
    assert_eq!(err.message(), "cycle detected: cycle in module dependencies");
    let span = err.span().expect("expected a span");
    assert_eq!(span.loc.url(), "file:///base.oal");
    assert_eq!((span.start, span.end), (0, 0));
}

#[test]
fn add_imports_returns_new_modules() {
    let mut graph = ModuleGraph::new(Locator::new("file:///base.oal"));
    assert_eq!(graph.next_pending(), Some(0));
    let imports = vec![
        Import { loc: Locator::new("file:///a.oal"), valid: true, span: None },
        Import { loc: Locator::new("file:///base.oal"), valid: true, span: None },
        Import { loc: Locator::new("file:///b.oal"), valid: true, span: None },
        Import { loc: Locator::new("file:///a.oal"), valid: true, span: None },
    ];
    let added = graph.add_imports(0, imports).ok().expect("expected new modules");
    assert_eq!(added, vec![1, 2]);
    assert_eq!(graph.len(), 3);
    assert_eq!(graph.find(&Locator::new("file:///b.oal")), Some(2));
    assert_eq!(graph.next_pending(), Some(2));
    assert_eq!(graph.next_pending(), Some(1));
    assert_eq!(graph.next_pending(), None);
}

#[test]
fn module_set_by_locator() {
    let mut mods = ModuleSet::new(Locator::new("file:///base.oal"), "base");
    assert_eq!(mods.len(), 1);
    assert!(!mods.is_empty());
    assert_eq!(*mods.main(), "base");
    assert_eq!(mods.base().url(), "file:///base.oal");
    mods.insert(Locator::new("file:///a.oal"), "a");
    mods.insert(Locator::new("file:///a.oal"), "a2");
    assert_eq!(mods.len(), 2);
    assert_eq!(mods.get(&Locator::new("file:///a.oal")), Some(&"a2"));
    assert_eq!(mods.get(&Locator::new("file:///b.oal")), None);
    let mut locs: Vec<&str> = mods.locators().into_iter().map(|l| l.url()).collect();
    locs.sort();
    assert_eq!(locs, vec!["file:///a.oal", "file:///base.oal"]);
}

#[test]
fn locator_join_resolves_relative_urls() {
    let base = oal_compiler::locator::Locator::new("file:///project/main.oal");
    let joined = base.join("lib/types.oal").ok().expect("join failed");
    assert_eq!(joined.url(), "file:///project/lib/types.oal");
    let up = base.join("../other.oal").ok().expect("join failed");
    assert_eq!(up.url(), "file:///other.oal");
}

#[test]
fn locator_join_reports_invalid_bases() {
    let base = oal_compiler::locator::Locator::new("not a url");
    let err = base.join("x.oal").err().expect("expected an error");
    assert!(matches!(err.kind, oal_compiler::errors::Kind::Locator(_)));
}

#[test]
fn module_graph_counts_imports() {
    let mut graph = ModuleGraph::new(Locator::new("file:///base.oal"));
    assert_eq!(graph.edge_count(), 0);
    let imports = vec![
        Import { loc: Locator::new("file:///a.oal"), valid: true, span: None },
        Import { loc: Locator::new("file:///b.oal"), valid: true, span: None },
    ];
    let n = graph.next_pending().expect("expected the base module");
    let added = graph.add_imports(n, imports).ok().expect("imports failed");
    assert_eq!(added.len(), 2);
    assert_eq!(graph.edge_count(), 2);
    assert_eq!(graph.len(), 3);
}
