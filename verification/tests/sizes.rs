use reforge::versions::compare_versions;
use reforge::project_compiler::{
    build_size_report, check_size_limits, contract_size, group_names_by_version, AbiFunction,
    ArtifactSummary, BytecodeObject, CompileOutcome, CompilerVersion, ContractInfo, ProjectCompiler,
    SizeLimitError, SizeReport, VersionedName, CONTRACT_INITCODE_SIZE_LIMIT, CONTRACT_RUNTIME_SIZE_LIMIT,
};

fn hex(s: &str) -> BytecodeObject {
    BytecodeObject::Unlinked(s.as_bytes().to_vec())
}

fn artifact(name: &str, source: &str, runtime: usize, init: usize, abi: Option<Vec<AbiFunction>>) -> ArtifactSummary {
    ArtifactSummary {
        name: name.to_string(),
        source: source.to_string(),
        bytecode: Some(BytecodeObject::Bytecode(vec![0u8; init])),
        deployed_bytecode: Some(BytecodeObject::Bytecode(vec![0u8; runtime])),
        abi,
    }
}

fn info_of(report: &SizeReport, name: &str) -> Option<ContractInfo> {
    report.contracts().iter().find(|e| e.name == name).map(|e| e.info)
}

#[test]
fn linked_bytecode_size_is_its_length() {
    let code = BytecodeObject::Bytecode(vec![1, 2, 3, 4, 5, 6, 7, 8, 9, 10]);
    assert_eq!(contract_size(Some(&code)), Some(10));
}

#[test]
fn unlinked_bytecode_counts_two_digits_per_byte() {
    assert_eq!(contract_size(Some(&hex("0x6001"))), Some(2));
    assert_eq!(contract_size(Some(&hex("6001"))), Some(2));
    assert_eq!(contract_size(Some(&hex("0x"))), Some(0));
    assert_eq!(contract_size(Some(&hex("0x600"))), Some(1));
    assert_eq!(contract_size(Some(&hex(""))), Some(0));
}

#[test]
fn unlinked_placeholder_counts_as_an_address() {
    // 40 placeholder characters stand for a 20-byte address
    let code = format!("0x60{}60", "__$0123456789abcdef0123456789abcdef01$__");
    assert_eq!(contract_size(Some(&hex(&code))), Some(22));
}

#[test]
fn missing_bytecode_has_no_size() {
    assert_eq!(contract_size(None), None);
}

#[test]
fn report_skips_forge_std_and_disambiguates_shared_names() {
    let arts = vec![
        artifact("A", "/p/src/A.sol", 100, 200, None),
        artifact("Test", "/p/lib/forge-std/src/Test.sol", 5, 5, None),
        artifact("C", "/p/src/x/C.sol", 10, 20, None),
        artifact("C", "/p/src/y/C.sol", 30, 40, None),
        artifact("D", "/elsewhere/D.sol", 1, 2, None),
    ];
    let report = build_size_report(&arts, "/p");
    let mut names: Vec<String> = report.contracts().iter().map(|e| e.name.clone()).collect();
    names.sort();
    assert_eq!(names, vec!["A", "C (src/x/C.sol)", "C (src/y/C.sol)", "D"]);
    assert_eq!(info_of(&report, "A"), Some(ContractInfo { runtime_size: 100, init_size: 200, is_dev_contract: false }));
    assert_eq!(info_of(&report, "C (src/y/C.sol)"), Some(ContractInfo { runtime_size: 30, init_size: 40, is_dev_contract: false }));
    assert_eq!(info_of(&report, "Test"), None);
}

#[test]
fn shared_name_outside_root_shows_full_path() {
    let arts = vec![
        artifact("E", "/p/src/E.sol", 1, 1, None),
        artifact("E", "/q/E.sol", 2, 2, None),
    ];
    let report = build_size_report(&arts, "/p");
    assert!(info_of(&report, "E (src/E.sol)").is_some());
    assert_eq!(info_of(&report, "E (/q/E.sol)").map(|i| i.runtime_size), Some(2));
}

#[test]
fn same_key_keeps_the_last_artifact() {
    let arts = vec![
        artifact("F", "/p/src/F.sol", 1, 1, None),
        artifact("F", "/p/src/F.sol", 7, 8, None),
    ];
    let report = build_size_report(&arts, "/p");
    assert_eq!(report.contracts().len(), 1);
    assert_eq!(info_of(&report, "F (src/F.sol)").map(|i| i.runtime_size), Some(7));
}

#[test]
fn test_and_script_contracts_are_dev_contracts() {
    let f = |name: &str, known: bool| AbiFunction { name: name.to_string(), known_test_kind: known };
    let arts = vec![
        artifact("T", "/p/test/T.sol", 1, 1, Some(vec![f("helper", false), f("IS_TEST", false)])),
        artifact("S", "/p/script/S.sol", 1, 1, Some(vec![f("IS_SCRIPT", false)])),
        artifact("U", "/p/test/U.sol", 1, 1, Some(vec![f("testFoo", true)])),
        artifact("P", "/p/src/P.sol", 1, 1, Some(vec![f("transfer", false)])),
        artifact("N", "/p/src/N.sol", 1, 1, None),
    ];
    let report = build_size_report(&arts, "/p");
    assert!(info_of(&report, "T").unwrap().is_dev_contract);
    assert!(info_of(&report, "S").unwrap().is_dev_contract);
    assert!(info_of(&report, "U").unwrap().is_dev_contract);
    assert!(!info_of(&report, "P").unwrap().is_dev_contract);
    assert!(!info_of(&report, "N").unwrap().is_dev_contract);
}

#[test]
fn size_limits_exempt_dev_contracts() {
    let big = CONTRACT_RUNTIME_SIZE_LIMIT + 1;
    let dev = vec![artifact("T", "/p/T.sol", big, 1, Some(vec![AbiFunction { name: "IS_TEST".to_string(), known_test_kind: false }]))];
    let report = build_size_report(&dev, "/p");
    assert!(!report.exceeds_runtime_size_limit());
    assert!(check_size_limits(&report, false).is_ok());

    let plain = vec![artifact("P", "/p/P.sol", big, 1, None)];
    let report = build_size_report(&plain, "/p");
    assert!(report.exceeds_runtime_size_limit());
    assert!(matches!(check_size_limits(&report, true), Err(SizeLimitError::RuntimeSizeExceeded)));
}

#[test]
fn size_limits_at_the_boundary() {
    let at = vec![artifact("P", "/p/P.sol", CONTRACT_RUNTIME_SIZE_LIMIT, CONTRACT_INITCODE_SIZE_LIMIT, None)];
    let report = build_size_report(&at, "/p");
    assert!(check_size_limits(&report, false).is_ok());
}

#[test]
fn initcode_limit_can_be_ignored() {
    let arts = vec![artifact("P", "/p/P.sol", 10, CONTRACT_INITCODE_SIZE_LIMIT + 1, None)];
    let report = build_size_report(&arts, "/p");
    assert!(report.exceeds_initcode_size_limit());
    assert!(matches!(check_size_limits(&report, false), Err(SizeLimitError::InitcodeSizeExceeded)));
    assert!(check_size_limits(&report, true).is_ok());
}

#[test]
fn runtime_limit_is_reported_before_initcode_limit() {
    let arts = vec![artifact("P", "/p/P.sol", CONTRACT_RUNTIME_SIZE_LIMIT + 1, CONTRACT_INITCODE_SIZE_LIMIT + 1, None)];
    let report = build_size_report(&arts, "/p");
    assert!(matches!(check_size_limits(&report, false), Err(SizeLimitError::RuntimeSizeExceeded)));
}

#[test]
fn report_insert_replaces_same_name() {
    let mut report = SizeReport::new();
    report.insert("X".to_string(), ContractInfo { runtime_size: 1, init_size: 1, is_dev_contract: false });
    report.insert("Y".to_string(), ContractInfo { runtime_size: 2, init_size: 2, is_dev_contract: false });
    report.insert("X".to_string(), ContractInfo { runtime_size: 3, init_size: 3, is_dev_contract: true });
    assert_eq!(report.contracts().len(), 2);
    assert_eq!(info_of(&report, "X"), Some(ContractInfo { runtime_size: 3, init_size: 3, is_dev_contract: true }));
}

fn v(major: u64, minor: u64, patch: u64) -> CompilerVersion {
    ver(major, minor, patch, "", "")
}

fn ver(major: u64, minor: u64, patch: u64, pre: &str, build: &str) -> CompilerVersion {
    CompilerVersion { major, minor, patch, pre: pre.to_string(), build: build.to_string() }
}

#[test]
fn versions_follow_semver_precedence() {
    let chain = [
        ver(1, 0, 0, "alpha", ""),
        ver(1, 0, 0, "alpha.1", ""),
        ver(1, 0, 0, "alpha.beta", ""),
        ver(1, 0, 0, "beta", ""),
        ver(1, 0, 0, "beta.2", ""),
        ver(1, 0, 0, "beta.11", ""),
        ver(1, 0, 0, "rc.1", ""),
        ver(1, 0, 0, "", ""),
        ver(1, 0, 1, "", ""),
        ver(1, 1, 0, "", ""),
        ver(2, 0, 0, "", ""),
    ];
    for i in 0..chain.len() {
        assert_eq!(compare_versions(&chain[i], &chain[i]), 0);
        for j in (i + 1)..chain.len() {
            assert_eq!(compare_versions(&chain[i], &chain[j]), -1, "{} {}", i, j);
            assert_eq!(compare_versions(&chain[j], &chain[i]), 1, "{} {}", j, i);
        }
    }
    assert_eq!(compare_versions(&ver(0, 8, 4, "alpha.99", ""), &ver(0, 8, 4, "alpha.100", "")), -1);
}

#[test]
fn build_metadata_orders_versions_too() {
    let b = |build: &str| ver(0, 8, 19, "", build);
    assert_eq!(compare_versions(&b(""), &b("a")), -1);
    assert_eq!(compare_versions(&b("0"), &b("00")), -1);
    assert_eq!(compare_versions(&b("1"), &b("01")), -1);
    assert_eq!(compare_versions(&b("01"), &b("001")), -1);
    assert_eq!(compare_versions(&b("2"), &b("10")), -1);
    assert_eq!(compare_versions(&b("02"), &b("1")), 1);
    assert_eq!(compare_versions(&b("commit.abc"), &b("commit.abc")), 0);
    assert_eq!(compare_versions(&b("commit"), &b("commit.abc")), -1);
    // build metadata ranks below the release numbers and the pre-release
    assert_eq!(compare_versions(&ver(0, 8, 19, "", "zzz"), &ver(0, 8, 20, "", "")), -1);
    assert_eq!(compare_versions(&ver(0, 8, 19, "rc", "zzz"), &ver(0, 8, 19, "", "")), -1);
}

#[test]
fn versions_differing_in_pre_release_or_build_get_their_own_groups() {
    let entries = vec![
        VersionedName { name: "a".to_string(), version: ver(0, 8, 19, "", "commit.7dd6d404") },
        VersionedName { name: "b".to_string(), version: ver(0, 8, 19, "nightly", "") },
        VersionedName { name: "c".to_string(), version: ver(0, 8, 19, "", "commit.7dd6d404") },
        VersionedName { name: "d".to_string(), version: ver(0, 8, 19, "", "") },
    ];
    let groups = group_names_by_version(&entries);
    let got: Vec<(String, String, Vec<String>)> =
        groups.iter().map(|g| (g.version.pre.clone(), g.version.build.clone(), g.names.clone())).collect();
    assert_eq!(
        got,
        vec![
            ("nightly".to_string(), "".to_string(), vec!["b".to_string()]),
            ("".to_string(), "".to_string(), vec!["d".to_string()]),
            ("".to_string(), "commit.7dd6d404".to_string(), vec!["a".to_string(), "c".to_string()]),
        ]
    );
}

#[test]
fn names_are_grouped_by_version_in_release_order() {
    let entries = vec![
        VersionedName { name: "a".to_string(), version: v(0, 8, 19) },
        VersionedName { name: "b".to_string(), version: v(0, 8, 4) },
        VersionedName { name: "c".to_string(), version: v(0, 8, 19) },
        VersionedName { name: "d".to_string(), version: v(0, 7, 6) },
    ];
    let groups = group_names_by_version(&entries);
    let got: Vec<(u64, u64, u64, Vec<String>)> =
        groups.iter().map(|g| (g.version.major, g.version.minor, g.version.patch, g.names.clone())).collect();
    assert_eq!(
        got,
        vec![
            (0, 7, 6, vec!["d".to_string()]),
            (0, 8, 4, vec!["b".to_string()]),
            (0, 8, 19, vec!["a".to_string(), "c".to_string()]),
        ]
    );
    assert!(group_names_by_version(&Vec::new()).is_empty());
}

#[test]
fn compile_decisions() {
    let c = ProjectCompiler::for_tests("/p".to_string(), vec![]);
    assert!(c.bail && !c.print_names && !c.print_sizes && !c.ignore_eip_3860);
    assert!(c.nothing_to_compile(false));
    assert!(!c.nothing_to_compile(true));
    assert!(!c.compiles_given_files());
    assert!(matches!(c.outcome(true, false, false), CompileOutcome::Bail));
    assert!(matches!(c.outcome(false, true, false), CompileOutcome::Silent));
    assert!(matches!(c.outcome(false, false, true), CompileOutcome::Unchanged));
    assert!(matches!(c.outcome(false, false, false), CompileOutcome::Report));

    let d = ProjectCompiler { project_root: "/p".to_string(), print_names: true, print_sizes: true, bail: false, ignore_eip_3860: true, files: vec!["/p/x.sol".to_string()] };
    assert!(!d.nothing_to_compile(false));
    assert!(d.compiles_given_files());
    assert!(matches!(d.outcome(true, false, false), CompileOutcome::Report));
    let plan = d.output_plan(false);
    assert!(plan.list_names && plan.report_sizes && plan.separate_sections);
    assert!(!d.output_plan(true).separate_sections);
}

#[test]
fn size_limit_messages() {
    assert_eq!(SizeLimitError::RuntimeSizeExceeded.message(), "some contracts exceed the runtime size limit (EIP-170: 24576 bytes)");
    assert_eq!(SizeLimitError::InitcodeSizeExceeded.message(), "some contracts exceed the initcode size limit (EIP-3860: 49152 bytes)");
}

#[test]
fn forge_std_artifacts_leave_the_report_unchanged() {
    let base = vec![artifact("A", "/p/src/A.sol", 3, 4, None), artifact("B", "/p/src/B.sol", 5, 6, None)];
    let mut with_std = vec![artifact("A", "/p/src/A.sol", 3, 4, None), artifact("B", "/p/src/B.sol", 5, 6, None)];
    with_std.push(artifact("A", "/p/lib/forge-std/src/A.sol", 99, 99, None));
    let r1 = build_size_report(&base, "/p");
    let r2 = build_size_report(&with_std, "/p");
    let view = |r: &SizeReport| {
        let mut v: Vec<(String, ContractInfo)> = r.contracts().iter().map(|e| (e.name.clone(), e.info)).collect();
        v.sort_by(|a, b| a.0.cmp(&b.0));
        v
    };
    assert_eq!(view(&r1), view(&r2));
    assert!(info_of(&r2, "A").is_some());
}
