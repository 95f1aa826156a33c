use vstd::prelude::*;
use crate::paths::{relative_or_self, relative_to};
use crate::text::{seq_contains, str_contains, str_eq};
use crate::versions::{version_order, compare_versions, lemma_version_order};
pub use crate::versions::CompilerVersion;

verus! {

/// EIP-170: the largest deployed (runtime) bytecode, in bytes.
pub const CONTRACT_RUNTIME_SIZE_LIMIT: usize = 24576;

/// EIP-3860: the largest initcode, in bytes.
pub const CONTRACT_INITCODE_SIZE_LIMIT: usize = 49152;

/// A compiled bytecode object: either fully linked bytes, or a hex string
/// (held as its bytes) that still contains library placeholders.
pub enum BytecodeObject {
    Bytecode(Vec<u8>),
    Unlinked(Vec<u8>),
}

/// Whether a hex text starts with the `0x` prefix.
pub open spec fn has_hex_prefix(hex: Seq<u8>) -> bool {
    hex.len() >= 2 && hex[0] == 0x30u8 && hex[1] == 0x78u8
}

/// Size in bytes of an unlinked hex text: two hex digits per byte, after the
/// optional `0x` prefix. A library placeholder takes as many digits as the
/// address that replaces it, so it is counted like any other digits.
pub open spec fn unlinked_size(hex: Seq<u8>) -> nat {
    if has_hex_prefix(hex) {
        ((hex.len() - 2) / 2) as nat
    } else {
        hex.len() / 2
    }
}

/// Size in bytes of a bytecode object.
pub open spec fn bytecode_size(code: BytecodeObject) -> nat {
    match code {
        BytecodeObject::Bytecode(bytes) => bytes@.len(),
        BytecodeObject::Unlinked(hex) => unlinked_size(hex@),
    }
}

/// Returns the size of the given deployed or init bytecode, or `None` when the
/// artifact has no such bytecode.
pub fn contract_size(code: Option<&BytecodeObject>) -> (size: Option<usize>)
    ensures
        match code {
            None => size is None,
            Some(c) => size == Some(bytecode_size(*c) as usize),
        },
{
    match code {
        None => None,
        Some(BytecodeObject::Bytecode(bytes)) => Some(bytes.len()),
        Some(BytecodeObject::Unlinked(hex)) => {
            let mut size = hex.len();
            if size >= 2 && hex[0] == 0x30u8 && hex[1] == 0x78u8 {
                size = size - 2;
            }
            Some(size / 2)
        },
    }
}

} // verus!

verus! {

/// A function of a contract's ABI: its name, and whether Foundry classifies
/// it as one of its known test functions (a test, an invariant, a set-up,
/// a fixture, ...).
pub struct AbiFunction {
    pub name: String,
    pub known_test_kind: bool,
}

/// What the size report reads of a compiled artifact.
pub struct ArtifactSummary {
    /// The contract's name.
    pub name: String,
    /// The path of the source file that defines it.
    pub source: String,
    /// The init (creation) bytecode, when the artifact has one.
    pub bytecode: Option<BytecodeObject>,
    /// The deployed (runtime) bytecode, when the artifact has one.
    pub deployed_bytecode: Option<BytecodeObject>,
    /// The ABI's functions, when the artifact has an ABI.
    pub abi: Option<Vec<AbiFunction>>,
}

/// Sizes of one contract, and whether it is a test or script contract.
#[derive(Clone, Copy, Debug, PartialEq, Eq, Structural)]
pub struct ContractInfo {
    pub runtime_size: usize,
    pub init_size: usize,
    pub is_dev_contract: bool,
}

/// One line of the size report.
pub struct SizeEntry {
    pub name: String,
    pub info: ContractInfo,
}

/// Contract sizes, by contract name; no name occurs twice.
pub struct SizeReport {
    contracts: Vec<SizeEntry>,
}

/// The report as a map, each entry inserted in turn.
pub open spec fn entries_map(entries: Seq<SizeEntry>) -> Map<Seq<char>, ContractInfo>
    decreases entries.len(),
{
    if entries.len() == 0 {
        Map::empty()
    } else {
        entries_map(entries.drop_last()).insert(entries.last().name@, entries.last().info)
    }
}

/// No two entries carry the same name.
pub open spec fn distinct_names(entries: Seq<SizeEntry>) -> bool {
    forall|i: int, j: int| 0 <= i < j < entries.len() ==> #[trigger] entries[i].name@ != #[trigger] entries[j].name@
}

/// With distinct names, the map holds exactly the entries' names, each with
/// its entry's sizes.
pub proof fn lemma_entries_map(entries: Seq<SizeEntry>)
    requires
        distinct_names(entries),
    ensures
        forall|i: int| 0 <= i < entries.len() ==> {
            &&& entries_map(entries).dom().contains(#[trigger] entries[i].name@)
            &&& entries_map(entries)[entries[i].name@] == entries[i].info
        },
        forall|k: Seq<char>| #[trigger] entries_map(entries).dom().contains(k) ==> exists|i: int| 0 <= i < entries.len() && entries[i].name@ == k,
    decreases entries.len(),
{
    if entries.len() > 0 {
        let init = entries.drop_last();
        assert(distinct_names(init)) by {
            assert forall|i: int, j: int| 0 <= i < j < init.len() implies #[trigger] init[i].name@ != #[trigger] init[j].name@ by {
                assert(init[i] == entries[i] && init[j] == entries[j]);
            }
        }
        lemma_entries_map(init);
        assert forall|i: int| 0 <= i < entries.len() implies {
            &&& entries_map(entries).dom().contains(#[trigger] entries[i].name@)
            &&& entries_map(entries)[entries[i].name@] == entries[i].info
        } by {
            if i < entries.len() - 1 {
                assert(init[i] == entries[i]);
                assert(entries[i].name@ != entries[entries.len() - 1].name@);
            }
        }
        assert forall|k: Seq<char>| #[trigger] entries_map(entries).dom().contains(k) implies exists|i: int| 0 <= i < entries.len() && entries[i].name@ == k by {
            if k != entries.last().name@ {
                assert(entries_map(init).dom().contains(k));
                let i = choose|i: int| 0 <= i < init.len() && init[i].name@ == k;
                assert(entries[i] == init[i]);
            } else {
                assert(entries[entries.len() - 1].name@ == k);
            }
        }
    }
}

impl View for SizeReport {
    type V = Map<Seq<char>, ContractInfo>;

    open spec fn view(&self) -> Map<Seq<char>, ContractInfo> {
        entries_map(self.lines())
    }
}

/// Records `info` under `name` in the entries, replacing the entry of that
/// name if there is one, else adding one at the end.
fn insert_entry(contracts: &mut Vec<SizeEntry>, name: String, info: ContractInfo)
    requires
        distinct_names(old(contracts)@),
    ensures
        distinct_names(final(contracts)@),
        entries_map(final(contracts)@) == entries_map(old(contracts)@).insert(name@, info),
{
    let ghost before = contracts@;
    proof { lemma_entries_map(before); }
    let mut j: usize = 0;
    while j < contracts.len()
        invariant
            contracts@ == before,
            before == old(contracts)@,
            distinct_names(before),
            j <= before.len(),
            forall|m: int| 0 <= m < j ==> #[trigger] before[m].name@ != name@,
        decreases before.len() - j,
    {
        if contracts[j].name == name {
            let ghost key = name@;
            assert(before[j as int].name@ == key);
            contracts.set(j, SizeEntry { name, info });
            proof {
                let after = contracts@;
                assert(distinct_names(after)) by {
                    assert forall|a: int, b: int| 0 <= a < b < after.len() implies #[trigger] after[a].name@ != #[trigger] after[b].name@ by {
                        assert(after[a].name@ == before[a].name@);
                        assert(after[b].name@ == before[b].name@);
                        assert(before[a].name@ != before[b].name@);
                    }
                }
                lemma_entries_map(after);
                lemma_entries_map(before);
                assert(entries_map(after) =~= entries_map(before).insert(key, info)) by {
                    assert forall|k: Seq<char>| entries_map(after).dom().contains(k) <==> entries_map(before).insert(key, info).dom().contains(k) by {
                        if entries_map(after).dom().contains(k) {
                            let i = choose|i: int| 0 <= i < after.len() && after[i].name@ == k;
                            assert(before[i].name@ == k);
                        }
                        if entries_map(before).dom().contains(k) {
                            let i = choose|i: int| 0 <= i < before.len() && before[i].name@ == k;
                            assert(after[i].name@ == k);
                        }
                        if k == key {
                            assert(after[j as int].name@ == k);
                        }
                    }
                    assert forall|k: Seq<char>| entries_map(after).dom().contains(k) implies entries_map(after)[k] == entries_map(before).insert(key, info)[k] by {
                        let i = choose|i: int| 0 <= i < after.len() && after[i].name@ == k;
                        if i != j {
                            assert(after[i] == before[i]);
                        }
                    }
                }
            }
            return;
        }
        j = j + 1;
    }
    contracts.push(SizeEntry { name, info });
    proof {
        let after = contracts@;
        assert(after.drop_last() =~= before);
        assert(distinct_names(after)) by {
            assert forall|a: int, b: int| 0 <= a < b < after.len() implies #[trigger] after[a].name@ != #[trigger] after[b].name@ by {
                assert(after[a] == before[a]);
                if b < before.len() {
                    assert(after[b] == before[b]);
                }
            }
        }
    }
}

impl SizeReport {
    /// No contract name occurs twice.
    #[verifier::type_invariant]
    spec fn wf(self) -> bool {
        distinct_names(self.contracts@)
    }

    /// The report's lines, in the order their names were first recorded.
    pub closed spec fn lines(self) -> Seq<SizeEntry> {
        self.contracts@
    }

    /// An empty report.
    pub fn new() -> (r: SizeReport)
        ensures
            r@ == Map::<Seq<char>, ContractInfo>::empty(),
            r.lines().len() == 0,
    {
        SizeReport { contracts: Vec::new() }
    }

    /// The report's lines; no name occurs twice among them.
    pub fn contracts(&self) -> (r: &Vec<SizeEntry>)
        ensures
            r@ == self.lines(),
            distinct_names(r@),
    {
        proof { use_type_invariant(self); }
        &self.contracts
    }

    /// Records the sizes of a contract under `name`, replacing what the report
    /// held under that name.
    pub fn insert(&mut self, name: String, info: ContractInfo)
        ensures
            final(self)@ == old(self)@.insert(name@, info),
    {
        proof { use_type_invariant(&*self); }
        let mut contracts: Vec<SizeEntry> = Vec::new();
        std::mem::swap(&mut contracts, &mut self.contracts);
        insert_entry(&mut contracts, name, info);
        self.contracts = contracts;
    }

    /// Whether a contract that is not a test or script contract has deployed
    /// bytecode larger than the EIP-170 limit.
    pub open spec fn spec_exceeds_runtime(self) -> bool {
        exists|k: Seq<char>| #![trigger self@[k]] self@.dom().contains(k) && !self@[k].is_dev_contract && self@[k].runtime_size > CONTRACT_RUNTIME_SIZE_LIMIT
    }

    /// Whether a contract that is not a test or script contract has initcode
    /// larger than the EIP-3860 limit.
    pub open spec fn spec_exceeds_initcode(self) -> bool {
        exists|k: Seq<char>| #![trigger self@[k]] self@.dom().contains(k) && !self@[k].is_dev_contract && self@[k].init_size > CONTRACT_INITCODE_SIZE_LIMIT
    }

    /// Whether a non-test, non-script contract exceeds the runtime size limit.
    pub fn exceeds_runtime_size_limit(&self) -> (r: bool)
        ensures
            r == self.spec_exceeds_runtime(),
            r <==> exists|k: Seq<char>| #[trigger] self@.dom().contains(k) && !self@[k].is_dev_contract && self@[k].runtime_size > 24576,
    {
        proof {
            lemma_runtime_limit_check(*self);
        }
        proof {
            use_type_invariant(self);
            lemma_entries_map(self.contracts@);
        }
        let mut i: usize = 0;
        while i < self.contracts.len()
            invariant
                distinct_names(self.contracts@),
                i <= self.contracts@.len(),
                forall|m: int| 0 <= m < i ==> !(!(#[trigger] self.contracts@[m]).info.is_dev_contract && self.contracts@[m].info.runtime_size > CONTRACT_RUNTIME_SIZE_LIMIT),
            decreases self.contracts@.len() - i,
        {
            let info = self.contracts[i].info;
            if !info.is_dev_contract && info.runtime_size > CONTRACT_RUNTIME_SIZE_LIMIT {
                let ghost k = self.contracts@[i as int].name@;
                proof { lemma_entries_map(self.contracts@); }
                assert(self@.dom().contains(k) && self@[k] == info);
                return true;
            }
            i = i + 1;
        }
        assert forall|k: Seq<char>| self@.dom().contains(k) implies !(!self@[k].is_dev_contract && self@[k].runtime_size > CONTRACT_RUNTIME_SIZE_LIMIT) by {
            let m = choose|m: int| 0 <= m < self.contracts@.len() && self.contracts@[m].name@ == k;
            assert(self.contracts@[m].info == self@[k]);
        }
        false
    }

    /// Whether a non-test, non-script contract exceeds the initcode size limit.
    pub fn exceeds_initcode_size_limit(&self) -> (r: bool)
        ensures
            r == self.spec_exceeds_initcode(),
            r <==> exists|k: Seq<char>| #[trigger] self@.dom().contains(k) && !self@[k].is_dev_contract && self@[k].init_size > 49152,
    {
        proof {
            lemma_initcode_limit_check(*self);
        }
        proof {
            use_type_invariant(self);
            lemma_entries_map(self.contracts@);
        }
        let mut i: usize = 0;
        while i < self.contracts.len()
            invariant
                distinct_names(self.contracts@),
                i <= self.contracts@.len(),
                forall|m: int| 0 <= m < i ==> !(!(#[trigger] self.contracts@[m]).info.is_dev_contract && self.contracts@[m].info.init_size > CONTRACT_INITCODE_SIZE_LIMIT),
            decreases self.contracts@.len() - i,
        {
            let info = self.contracts[i].info;
            if !info.is_dev_contract && info.init_size > CONTRACT_INITCODE_SIZE_LIMIT {
                let ghost k = self.contracts@[i as int].name@;
                proof { lemma_entries_map(self.contracts@); }
                assert(self@.dom().contains(k) && self@[k] == info);
                return true;
            }
            i = i + 1;
        }
        assert forall|k: Seq<char>| self@.dom().contains(k) implies !(!self@[k].is_dev_contract && self@[k].init_size > CONTRACT_INITCODE_SIZE_LIMIT) by {
            let m = choose|m: int| 0 <= m < self.contracts@.len() && self.contracts@[m].name@ == k;
            assert(self.contracts@[m].info == self@[k]);
        }
        false
    }
}

} // verus!

verus! {

/// Whether a source path lies in forge-std's `src` directory, whose contracts
/// the size report leaves out.
pub open spec fn is_forge_std_source(source: Seq<char>) -> bool {
    seq_contains(source, "/forge-std/src/"@)
}

/// The artifacts that the size report covers: all but forge-std's, in order.
pub open spec fn kept_artifacts(arts: Seq<ArtifactSummary>) -> Seq<ArtifactSummary>
    decreases arts.len(),
{
    if arts.len() == 0 {
        Seq::empty()
    } else {
        let rest = kept_artifacts(arts.drop_last());
        if is_forge_std_source(arts.last().source@) {
            rest
        } else {
            rest.push(arts.last())
        }
    }
}

/// How many of the artifacts carry the given contract name.
pub open spec fn count_named(arts: Seq<ArtifactSummary>, name: Seq<char>) -> nat
    decreases arts.len(),
{
    if arts.len() == 0 {
        0
    } else {
        count_named(arts.drop_last(), name) + if arts.last().name@ == name { 1nat } else { 0nat }
    }
}

/// The name under which an artifact enters the report: its contract name, or,
/// when several covered artifacts share that name, the name followed by the
/// source path (relative to the project root when it lies under it) in
/// parentheses.
pub open spec fn report_key(a: ArtifactSummary, kept: Seq<ArtifactSummary>, root: Seq<char>) -> Seq<char> {
    if count_named(kept, a.name@) > 1 {
        a.name@ + " ("@ + relative_or_self(a.source@, root) + ")"@
    } else {
        a.name@
    }
}

/// Whether an ABI function marks its contract as a test or script contract.
pub open spec fn is_dev_function(f: AbiFunction) -> bool {
    f.known_test_kind || f.name@ == "IS_TEST"@ || f.name@ == "IS_SCRIPT"@
}

/// Whether a contract is a test or script contract: it has an ABI, and one of
/// its functions is a known test function or is named `IS_TEST` or
/// `IS_SCRIPT`.
pub open spec fn is_dev_abi(abi: Option<Vec<AbiFunction>>) -> bool {
    match abi {
        Some(fs) => has_dev_function(fs@),
        None => false,
    }
}

/// Whether one of the functions marks a test or script contract.
pub open spec fn has_dev_function(fs: Seq<AbiFunction>) -> bool {
    exists|i: int| 0 <= i < fs.len() && #[trigger] is_dev_function(fs[i])
}

/// The size of an optional bytecode, zero when it is absent.
pub open spec fn size_or_zero(code: Option<BytecodeObject>) -> usize {
    match code {
        Some(c) => bytecode_size(c) as usize,
        None => 0,
    }
}

/// The sizes the report gives an artifact.
pub open spec fn contract_info(a: ArtifactSummary) -> ContractInfo {
    ContractInfo {
        runtime_size: size_or_zero(a.deployed_bytecode),
        init_size: size_or_zero(a.bytecode),
        is_dev_contract: is_dev_abi(a.abi),
    }
}

/// The report built from `ks`, a prefix of the covered artifacts `kept`: each
/// artifact inserted in turn under its report key.
pub open spec fn expected_report(ks: Seq<ArtifactSummary>, kept: Seq<ArtifactSummary>, root: Seq<char>) -> Map<Seq<char>, ContractInfo>
    decreases ks.len(),
{
    if ks.len() == 0 {
        Map::empty()
    } else {
        expected_report(ks.drop_last(), kept, root).insert(report_key(ks.last(), kept, root), contract_info(ks.last()))
    }
}

/// Whether the ABI marks a test or script contract.
pub fn is_dev_contract(abi: &Option<Vec<AbiFunction>>) -> (r: bool)
    ensures
        r == is_dev_abi(*abi),
        abi is None ==> !r,
        abi is Some ==> (r <==> exists|i: int| 0 <= i < abi->0@.len()
            && ((#[trigger] abi->0@[i]).known_test_kind || abi->0@[i].name@ == "IS_TEST"@ || abi->0@[i].name@ == "IS_SCRIPT"@)),
{
    match abi {
        None => false,
        Some(fs) => {
            let mut i: usize = 0;
            while i < fs.len()
                invariant
                    *abi == Some(*fs),
                    i <= fs@.len(),
                    forall|m: int| 0 <= m < i ==> !#[trigger] is_dev_function(fs@[m]),
                decreases fs@.len() - i,
            {
                let f = &fs[i];
                if f.known_test_kind || str_eq(f.name.as_str(), "IS_TEST") || str_eq(f.name.as_str(), "IS_SCRIPT") {
                    assert(is_dev_function(fs@[i as int]));
                    assert(has_dev_function(fs@));
                    assert(abi->0@[i as int] == fs@[i as int]);
                    return true;
                }
                i = i + 1;
            }
            assert forall|m: int| 0 <= m < fs@.len() implies !((#[trigger] fs@[m]).known_test_kind || fs@[m].name@ == "IS_TEST"@ || fs@[m].name@ == "IS_SCRIPT"@) by {
                assert(!is_dev_function(fs@[m]));
            }
            false
        },
    }
}

/// The sizes of an artifact's deployed and init bytecode (zero when absent),
/// and whether it is a test or script contract.
pub fn artifact_info(a: &ArtifactSummary) -> (r: ContractInfo)
    ensures
        r == contract_info(*a),
{
    let runtime = match &a.deployed_bytecode {
        Some(c) => contract_size(Some(c)),
        None => contract_size(None),
    };
    let init = match &a.bytecode {
        Some(c) => contract_size(Some(c)),
        None => contract_size(None),
    };
    let runtime_size = match runtime {
        Some(s) => s,
        None => 0,
    };
    let init_size = match init {
        Some(s) => s,
        None => 0,
    };
    ContractInfo { runtime_size, init_size, is_dev_contract: is_dev_contract(&a.abi) }
}

/// The covered artifacts, read through their indices.
pub open spec fn indexed(arts: Seq<ArtifactSummary>, idx: Seq<usize>) -> Seq<ArtifactSummary> {
    idx.map_values(|j: usize| arts[j as int])
}

/// Builds the size report: every artifact but forge-std's, under its report
/// key, with its deployed and init sizes and whether it is a test or script
/// contract. `project_root` is the root that disambiguating paths are shown
/// relative to.
pub fn build_size_report(artifacts: &Vec<ArtifactSummary>, project_root: &str) -> (r: SizeReport)
    ensures
        r@ == expected_report(kept_artifacts(artifacts@), kept_artifacts(artifacts@), project_root@),
        forall|i: int| 0 <= i < artifacts@.len() && !seq_contains((#[trigger] artifacts@[i]).source@, "/forge-std/src/"@)
            ==> r@.dom().contains(report_key(artifacts@[i], kept_artifacts(artifacts@), project_root@)),
        forall|k: Seq<char>| #[trigger] r@.dom().contains(k) ==> exists|i: int| 0 <= i < artifacts@.len()
            && !seq_contains((#[trigger] artifacts@[i]).source@, "/forge-std/src/"@)
            && report_key(artifacts@[i], kept_artifacts(artifacts@), project_root@) == k,
{
    let ghost arts = artifacts@;
    let mut idx: Vec<usize> = Vec::new();
    let mut i: usize = 0;
    while i < artifacts.len()
        invariant
            arts == artifacts@,
            i <= arts.len(),
            forall|m: int| 0 <= m < idx@.len() ==> #[trigger] idx@[m] < arts.len(),
            indexed(arts, idx@) == kept_artifacts(arts.take(i as int)),
        decreases arts.len() - i,
    {
        assert(arts.take(i + 1).drop_last() =~= arts.take(i as int));
        assert(arts.take(i + 1).last() == arts[i as int]);
        if !str_contains(artifacts[i].source.as_str(), "/forge-std/src/") {
            let ghost before = idx@;
            idx.push(i);
            assert(indexed(arts, idx@) =~= indexed(arts, before).push(arts[i as int]));
        }
        i = i + 1;
    }
    assert(arts.take(arts.len() as int) =~= arts);
    let ghost kept = kept_artifacts(arts);
    let mut report = SizeReport::new();
    let mut m: usize = 0;
    while m < idx.len()
        invariant
            arts == artifacts@,
            kept == kept_artifacts(arts),
            forall|t: int| 0 <= t < idx@.len() ==> #[trigger] idx@[t] < arts.len(),
            indexed(arts, idx@) == kept,
            m <= idx@.len(),
            report@ == expected_report(kept.take(m as int), kept, project_root@),
        decreases idx@.len() - m,
    {
        let a = &artifacts[idx[m]];
        assert(kept[m as int] == *a);
        // how many covered artifacts share this contract name
        let mut count: usize = 0;
        let mut t: usize = 0;
        while t < idx.len()
            invariant
                arts == artifacts@,
                forall|u: int| 0 <= u < idx@.len() ==> #[trigger] idx@[u] < arts.len(),
                indexed(arts, idx@) == kept,
                t <= idx@.len(),
                count <= t,
                count == count_named(kept.take(t as int), a.name@),
            decreases idx@.len() - t,
        {
            assert(kept.take(t + 1).drop_last() =~= kept.take(t as int));
            assert(kept.take(t + 1).last() == kept[t as int]);
            assert(kept[t as int] == arts[idx@[t as int] as int]);
            if artifacts[idx[t]].name == a.name {
                count = count + 1;
            }
            t = t + 1;
        }
        assert(kept.take(idx@.len() as int) =~= kept);
        let key = if count > 1 {
            let mut k = a.name.clone();
            k.append(" (");
            let rel = relative_to(a.source.as_str(), project_root);
            k.append(rel.as_str());
            k.append(")");
            k
        } else {
            a.name.clone()
        };
        assert(key@ == report_key(*a, kept, project_root@));
        let info = artifact_info(a);
        report.insert(key, info);
        assert(kept.take(m + 1).drop_last() =~= kept.take(m as int));
        assert(kept.take(m + 1).last() == kept[m as int]);
        m = m + 1;
    }
    assert(kept.take(idx@.len() as int) =~= kept);
    proof {
        lemma_report_covers_non_forge_std(arts, project_root@);
    }
    report
}

/// Why the size check fails.
pub enum SizeLimitError {
    /// Some contract's deployed bytecode exceeds the EIP-170 limit.
    RuntimeSizeExceeded,
    /// Some contract's initcode exceeds the EIP-3860 limit.
    InitcodeSizeExceeded,
}

impl SizeLimitError {
    /// The error's message, naming the limit.
    pub open spec fn spec_message(&self) -> Seq<char> {
        match self {
            SizeLimitError::RuntimeSizeExceeded => "some contracts exceed the runtime size limit (EIP-170: 24576 bytes)"@,
            SizeLimitError::InitcodeSizeExceeded => "some contracts exceed the initcode size limit (EIP-3860: 49152 bytes)"@,
        }
    }

    /// The error's message, naming the limit.
    pub fn message(&self) -> (r: String)
        ensures
            r@ == self.spec_message(),
    {
        match self {
            SizeLimitError::RuntimeSizeExceeded => "some contracts exceed the runtime size limit (EIP-170: 24576 bytes)".to_owned(),
            SizeLimitError::InitcodeSizeExceeded => "some contracts exceed the initcode size limit (EIP-3860: 49152 bytes)".to_owned(),
        }
    }
}

/// The outcome of the size check on a report: the runtime limit first, then,
/// unless the EIP-3860 check is switched off, the initcode limit.
pub open spec fn size_check(report: SizeReport, ignore_eip_3860: bool) -> Result<(), SizeLimitError> {
    if report.spec_exceeds_runtime() {
        Err(SizeLimitError::RuntimeSizeExceeded)
    } else if !ignore_eip_3860 && report.spec_exceeds_initcode() {
        Err(SizeLimitError::InitcodeSizeExceeded)
    } else {
        Ok(())
    }
}

/// Checks the report against the size limits (see `size_check`). Test and
/// script contracts are exempt.
pub fn check_size_limits(report: &SizeReport, ignore_eip_3860: bool) -> (r: Result<(), SizeLimitError>)
    ensures
        r == size_check(*report, ignore_eip_3860),
        (exists|k: Seq<char>| #[trigger] report@.dom().contains(k) && !report@[k].is_dev_contract && report@[k].runtime_size > 24576)
            ==> r == Err::<(), SizeLimitError>(SizeLimitError::RuntimeSizeExceeded),
        !(exists|k: Seq<char>| #[trigger] report@.dom().contains(k) && !report@[k].is_dev_contract && report@[k].runtime_size > 24576)
            && !ignore_eip_3860
            && (exists|k: Seq<char>| #[trigger] report@.dom().contains(k) && !report@[k].is_dev_contract && report@[k].init_size > 49152)
            ==> r == Err::<(), SizeLimitError>(SizeLimitError::InitcodeSizeExceeded),
        (forall|k: Seq<char>| #[trigger] report@.dom().contains(k) && !report@[k].is_dev_contract ==> report@[k].runtime_size <= 24576
            && (ignore_eip_3860 || report@[k].init_size <= 49152))
            ==> r == Ok::<(), SizeLimitError>(()),
{
    proof {
        lemma_size_check_outcome(*report, ignore_eip_3860);
    }
    if report.exceeds_runtime_size_limit() {
        return Err(SizeLimitError::RuntimeSizeExceeded);
    }
    if !ignore_eip_3860 && report.exceeds_initcode_size_limit() {
        return Err(SizeLimitError::InitcodeSizeExceeded);
    }
    Ok(())
}

/// With the EIP-3860 check switched off, the size check never fails on
/// initcode size.
pub proof fn lemma_ignored_initcode_limit_never_fails(report: SizeReport)
    ensures
        size_check(report, true) != Err::<(), SizeLimitError>(SizeLimitError::InitcodeSizeExceeded),
{
}

/// A report of test and script contracts only always passes the size check,
/// however large they are.
pub proof fn lemma_dev_contracts_pass_size_check(report: SizeReport, ignore_eip_3860: bool)
    requires
        forall|k: Seq<char>| report@.dom().contains(k) ==> (#[trigger] report@[k]).is_dev_contract,
    ensures
        size_check(report, ignore_eip_3860) == Ok::<(), SizeLimitError>(()),
{
}

/// Passing the size check with the EIP-3860 check on implies passing it with
/// the check off.
pub proof fn lemma_size_check_weakens_when_ignoring(report: SizeReport)
    requires
        size_check(report, false) is Ok,
    ensures
        size_check(report, true) is Ok,
{
}

/// Artifacts from forge-std's sources leave the size report as it is: adding
/// one to the artifacts changes neither the covered artifacts nor the report.
pub proof fn lemma_forge_std_artifact_leaves_report(arts: Seq<ArtifactSummary>, a: ArtifactSummary, root: Seq<char>)
    requires
        is_forge_std_source(a.source@),
    ensures
        kept_artifacts(arts.push(a)) == kept_artifacts(arts),
        expected_report(kept_artifacts(arts.push(a)), kept_artifacts(arts.push(a)), root)
            == expected_report(kept_artifacts(arts), kept_artifacts(arts), root),
{
    assert(arts.push(a).drop_last() =~= arts);
}

/// An artifact whose contract name no other covered artifact shares enters the
/// report under its bare name.
pub proof fn lemma_unshared_name_is_its_key(a: ArtifactSummary, kept: Seq<ArtifactSummary>, root: Seq<char>)
    requires
        count_named(kept, a.name@) <= 1,
    ensures
        report_key(a, kept, root) == a.name@,
{
}

/// The covered artifacts are the artifacts whose source path does not
/// contain `/forge-std/src/`, in their order.
pub proof fn lemma_covered_artifacts_filter(arts: Seq<ArtifactSummary>)
    ensures
        kept_artifacts(arts) == arts.filter(|a: ArtifactSummary| !seq_contains(a.source@, "/forge-std/src/"@)),
    decreases arts.len(),
{
    let pred = |a: ArtifactSummary| !seq_contains(a.source@, "/forge-std/src/"@);
    reveal(Seq::filter);
    if arts.len() > 0 {
        lemma_covered_artifacts_filter(arts.drop_last());
        assert(arts.filter(pred) == if pred(arts.last()) {
            arts.drop_last().filter(pred).push(arts.last())
        } else {
            arts.drop_last().filter(pred)
        });
    } else {
        assert(arts.filter(pred) == arts);
    }
}

/// The number of artifacts carrying a name is the length of the artifacts
/// filtered by that name.
pub proof fn lemma_count_named_filter(arts: Seq<ArtifactSummary>, name: Seq<char>)
    ensures
        count_named(arts, name) == arts.filter(|a: ArtifactSummary| a.name@ == name).len(),
    decreases arts.len(),
{
    let pred = |a: ArtifactSummary| a.name@ == name;
    reveal(Seq::filter);
    if arts.len() > 0 {
        lemma_count_named_filter(arts.drop_last(), name);
        assert(arts.filter(pred) == if pred(arts.last()) {
            arts.drop_last().filter(pred).push(arts.last())
        } else {
            arts.drop_last().filter(pred)
        });
    } else {
        assert(arts.filter(pred) == arts);
    }
}

/// An artifact whose contract name another covered artifact shares enters the
/// report under its name, a space, and its source path (relative to the root
/// when under it) in parentheses.
pub proof fn lemma_shared_name_key_shows_path(a: ArtifactSummary, kept: Seq<ArtifactSummary>, root: Seq<char>)
    requires
        kept.filter(|b: ArtifactSummary| b.name@ == a.name@).len() > 1,
    ensures
        report_key(a, kept, root) == a.name@ + " ("@ + relative_or_self(a.source@, root) + ")"@,
{
    lemma_count_named_filter(kept, a.name@);
    let name = a.name@;
    assert((|b: ArtifactSummary| b.name@ == a.name@) =~= (|x: ArtifactSummary| x.name@ == name));
}

/// Deployed bytes count one byte each.
pub proof fn lemma_linked_size(bytes: Vec<u8>)
    ensures
        bytecode_size(BytecodeObject::Bytecode(bytes)) == bytes@.len(),
{
}

/// In an unlinked hex text, a leading `0x` is not counted, and every two
/// further hex digits count one byte.
pub proof fn lemma_unlinked_size(hex: Seq<u8>, a: u8, b: u8)
    requires
        hex.len() >= 2,
    ensures
        !has_hex_prefix(hex) ==> unlinked_size(seq![0x30u8, 0x78u8] + hex) == unlinked_size(hex),
        unlinked_size(hex + seq![a, b]) == unlinked_size(hex) + 1,
        unlinked_size(seq![a, b]) == (if a == 0x30u8 && b == 0x78u8 { 0int } else { 1int }),
        unlinked_size(Seq::<u8>::empty()) == 0,
{
    let p = seq![0x30u8, 0x78u8] + hex;
    assert(p[0] == 0x30u8 && p[1] == 0x78u8);
    let q = hex + seq![a, b];
    assert(q[0] == hex[0] && q[1] == hex[1]);
}

/// A contract whose ABI has, at any position, a known test function or a
/// function named `IS_TEST` or `IS_SCRIPT` is a test or script contract.
pub proof fn lemma_any_marker_makes_dev_contract(fs: Vec<AbiFunction>, i: int)
    requires
        0 <= i < fs@.len(),
        fs@[i].known_test_kind || fs@[i].name@ == "IS_TEST"@ || fs@[i].name@ == "IS_SCRIPT"@,
    ensures
        is_dev_abi(Some(fs)),
        forall|a: ArtifactSummary| a.abi == Some(fs) ==> (#[trigger] contract_info(a)).is_dev_contract,
{
    assert(is_dev_function(fs@[i]));
}

/// A contract whose ABI has no known test function and no function named
/// `IS_TEST` or `IS_SCRIPT`, or that has no ABI, is not a test or script
/// contract.
pub proof fn lemma_no_marker_no_dev_contract(abi: Option<Vec<AbiFunction>>)
    requires
        forall|fs: Vec<AbiFunction>, i: int| abi == Some(fs) && 0 <= i < fs@.len() ==> !((#[trigger] fs@[i]).known_test_kind || fs@[i].name@ == "IS_TEST"@ || fs@[i].name@ == "IS_SCRIPT"@),
    ensures
        !is_dev_abi(abi),
{
    if let Some(fs) = abi {
        if has_dev_function(fs@) {
            let i = choose|i: int| 0 <= i < fs@.len() && #[trigger] is_dev_function(fs@[i]);
            assert(!(fs@[i].known_test_kind || fs@[i].name@ == "IS_TEST"@ || fs@[i].name@ == "IS_SCRIPT"@));
        }
    }
}

/// The report covers exactly the artifacts whose source path does not
/// contain `/forge-std/src/`: each of them is covered, and every covered
/// artifact is one of the artifacts and has no `/forge-std/src/` in its path.
pub proof fn lemma_covered_artifacts(arts: Seq<ArtifactSummary>)
    ensures
        forall|i: int| 0 <= i < arts.len() && !seq_contains((#[trigger] arts[i]).source@, "/forge-std/src/"@) ==> kept_artifacts(arts).contains(arts[i]),
        forall|a: ArtifactSummary| #[trigger] kept_artifacts(arts).contains(a) ==> arts.contains(a) && !seq_contains(a.source@, "/forge-std/src/"@),
    decreases arts.len(),
{
    if arts.len() > 0 {
        let init = arts.drop_last();
        lemma_covered_artifacts(init);
        let k = kept_artifacts(arts);
        let ki = kept_artifacts(init);
        assert forall|i: int| 0 <= i < arts.len() && !seq_contains((#[trigger] arts[i]).source@, "/forge-std/src/"@) implies k.contains(arts[i]) by {
            if i < init.len() {
                assert(init[i] == arts[i]);
                let j = choose|j: int| 0 <= j < ki.len() && ki[j] == arts[i];
                if !is_forge_std_source(arts.last().source@) {
                    assert(k[j] == ki[j]);
                }
            } else {
                assert(arts[i] == arts.last());
                assert(k[k.len() - 1] == arts.last());
            }
        }
        assert forall|a: ArtifactSummary| #[trigger] k.contains(a) implies arts.contains(a) && !seq_contains(a.source@, "/forge-std/src/"@) by {
            let j = choose|j: int| 0 <= j < k.len() && k[j] == a;
            if j < ki.len() {
                assert(ki[j] == a);
                assert(ki.contains(a));
                let m = choose|m: int| 0 <= m < init.len() && init[m] == a;
                assert(arts[m] == a);
            } else {
                assert(arts[arts.len() - 1] == a);
            }
        }
    }
}

/// Each artifact inserted into the report has an entry under its key, the
/// entry under a key holds the sizes of the last artifact inserted under it,
/// and every key of the report is the key of an inserted artifact.
pub proof fn lemma_report_entries(ks: Seq<ArtifactSummary>, kept: Seq<ArtifactSummary>, root: Seq<char>)
    ensures
        forall|j: int| 0 <= j < ks.len() ==> expected_report(ks, kept, root).dom().contains(report_key(#[trigger] ks[j], kept, root)),
        forall|j: int| 0 <= j < ks.len() && (forall|m: int| j < m < ks.len() ==> report_key(#[trigger] ks[m], kept, root) != report_key(ks[j], kept, root))
            ==> expected_report(ks, kept, root)[report_key(#[trigger] ks[j], kept, root)] == contract_info(ks[j]),
        forall|k: Seq<char>| #[trigger] expected_report(ks, kept, root).dom().contains(k) ==> exists|j: int| 0 <= j < ks.len() && report_key(#[trigger] ks[j], kept, root) == k,
    decreases ks.len(),
{
    if ks.len() > 0 {
        let init = ks.drop_last();
        lemma_report_entries(init, kept, root);
        let r = expected_report(ks, kept, root);
        assert forall|j: int| 0 <= j < ks.len() implies r.dom().contains(report_key(#[trigger] ks[j], kept, root)) by {
            if j < init.len() {
                assert(init[j] == ks[j]);
            }
        }
        assert forall|j: int| 0 <= j < ks.len() && (forall|m: int| j < m < ks.len() ==> report_key(#[trigger] ks[m], kept, root) != report_key(ks[j], kept, root))
            implies r[report_key(#[trigger] ks[j], kept, root)] == contract_info(ks[j]) by {
            if j < init.len() {
                assert(init[j] == ks[j]);
                assert(report_key(ks[ks.len() - 1], kept, root) != report_key(ks[j], kept, root));
                assert forall|m: int| j < m < init.len() implies report_key(#[trigger] init[m], kept, root) != report_key(init[j], kept, root) by {
                    assert(init[m] == ks[m]);
                }
            }
        }
        assert forall|k: Seq<char>| #[trigger] r.dom().contains(k) implies exists|j: int| 0 <= j < ks.len() && report_key(#[trigger] ks[j], kept, root) == k by {
            if k == report_key(ks.last(), kept, root) {
                assert(report_key(ks[ks.len() - 1], kept, root) == k);
            } else {
                assert(expected_report(init, kept, root).dom().contains(k));
                let j = choose|j: int| 0 <= j < init.len() && report_key(#[trigger] init[j], kept, root) == k;
                assert(ks[j] == init[j]);
            }
        }
    }
}

/// The keys of the report built from the artifacts are exactly the keys of
/// the artifacts whose source path does not contain `/forge-std/src/`.
pub proof fn lemma_report_covers_non_forge_std(arts: Seq<ArtifactSummary>, root: Seq<char>)
    ensures
        forall|i: int| 0 <= i < arts.len() && !seq_contains((#[trigger] arts[i]).source@, "/forge-std/src/"@)
            ==> expected_report(kept_artifacts(arts), kept_artifacts(arts), root).dom().contains(report_key(arts[i], kept_artifacts(arts), root)),
        forall|k: Seq<char>| #[trigger] expected_report(kept_artifacts(arts), kept_artifacts(arts), root).dom().contains(k)
            ==> exists|i: int| 0 <= i < arts.len()
            && !seq_contains((#[trigger] arts[i]).source@, "/forge-std/src/"@)
            && report_key(arts[i], kept_artifacts(arts), root) == k,
{
    let kept = kept_artifacts(arts);
    let rep = expected_report(kept, kept, root);
    lemma_covered_artifacts(arts);
    lemma_report_entries(kept, kept, root);
    assert forall|i: int| 0 <= i < arts.len() && !seq_contains((#[trigger] arts[i]).source@, "/forge-std/src/"@)
        implies rep.dom().contains(report_key(arts[i], kept, root)) by {
        assert(kept.contains(arts[i]));
        let j = choose|j: int| 0 <= j < kept.len() && kept[j] == arts[i];
    }
    assert forall|k: Seq<char>| #[trigger] rep.dom().contains(k) implies exists|i: int| 0 <= i < arts.len()
        && !seq_contains((#[trigger] arts[i]).source@, "/forge-std/src/"@)
        && report_key(arts[i], kept, root) == k by {
        let j = choose|j: int| 0 <= j < kept.len() && report_key(#[trigger] kept[j], kept, root) == k;
        assert(kept.contains(kept[j]));
        let i = choose|i: int| 0 <= i < arts.len() && arts[i] == kept[j];
        assert(!seq_contains(arts[i].source@, "/forge-std/src/"@));
    }
}

/// The deployed-size check fails exactly when some contract of the report
/// that is not a test or script contract has more than 24576 bytes of
/// deployed bytecode, whatever the order in which entries were recorded.
pub proof fn lemma_runtime_limit_check(report: SizeReport)
    ensures
        report.spec_exceeds_runtime() <==> exists|k: Seq<char>| #[trigger] report@.dom().contains(k) && !report@[k].is_dev_contract && report@[k].runtime_size > 24576,
{
    if exists|k: Seq<char>| #[trigger] report@.dom().contains(k) && !report@[k].is_dev_contract && report@[k].runtime_size > 24576 {
        let k = choose|k: Seq<char>| #[trigger] report@.dom().contains(k) && !report@[k].is_dev_contract && report@[k].runtime_size > 24576;
        assert(report@[k].runtime_size > CONTRACT_RUNTIME_SIZE_LIMIT);
    }
}

/// The initcode check fails exactly when some contract of the report that is
/// not a test or script contract has more than 49152 bytes of initcode.
pub proof fn lemma_initcode_limit_check(report: SizeReport)
    ensures
        report.spec_exceeds_initcode() <==> exists|k: Seq<char>| #[trigger] report@.dom().contains(k) && !report@[k].is_dev_contract && report@[k].init_size > 49152,
{
    if exists|k: Seq<char>| #[trigger] report@.dom().contains(k) && !report@[k].is_dev_contract && report@[k].init_size > 49152 {
        let k = choose|k: Seq<char>| #[trigger] report@.dom().contains(k) && !report@[k].is_dev_contract && report@[k].init_size > 49152;
        assert(report@[k].init_size > CONTRACT_INITCODE_SIZE_LIMIT);
    }
}

/// The size check: a non-test contract over 24576 deployed bytes fails it
/// with the runtime error; otherwise, with the EIP-3860 check on, a non-test
/// contract over 49152 initcode bytes fails it with the initcode error;
/// otherwise it passes.
pub proof fn lemma_size_check_outcome(report: SizeReport, ignore_eip_3860: bool)
    ensures
        (exists|k: Seq<char>| #[trigger] report@.dom().contains(k) && !report@[k].is_dev_contract && report@[k].runtime_size > 24576)
            ==> size_check(report, ignore_eip_3860) == Err::<(), SizeLimitError>(SizeLimitError::RuntimeSizeExceeded),
        !(exists|k: Seq<char>| #[trigger] report@.dom().contains(k) && !report@[k].is_dev_contract && report@[k].runtime_size > 24576)
            && !ignore_eip_3860
            && (exists|k: Seq<char>| #[trigger] report@.dom().contains(k) && !report@[k].is_dev_contract && report@[k].init_size > 49152)
            ==> size_check(report, ignore_eip_3860) == Err::<(), SizeLimitError>(SizeLimitError::InitcodeSizeExceeded),
        (forall|k: Seq<char>| #[trigger] report@.dom().contains(k) && !report@[k].is_dev_contract ==> report@[k].runtime_size <= 24576
            && (ignore_eip_3860 || report@[k].init_size <= 49152))
            ==> size_check(report, ignore_eip_3860) == Ok::<(), SizeLimitError>(()),
{
    lemma_runtime_limit_check(report);
    lemma_initcode_limit_check(report);
}

} // verus!

verus! {

/// The semver order of compiler versions: whether `a` is earlier than `b`.
pub open spec fn version_lt(a: CompilerVersion, b: CompilerVersion) -> bool {
    version_order(a@, b@) < 0
}

/// A compiled artifact's name with the version of the compiler that built it.
pub struct VersionedName {
    pub name: String,
    pub version: CompilerVersion,
}

/// The artifact names built by one compiler version.
pub struct VersionGroup {
    pub version: CompilerVersion,
    pub names: Vec<String>,
}

/// The names of a sequence of strings.
pub open spec fn strings_view(names: Seq<String>) -> Seq<Seq<char>> {
    names.map_values(|s: String| s@)
}

/// The names built by version `v`, in the order given.
pub open spec fn names_for(entries: Seq<VersionedName>, v: (u64, u64, u64, Seq<char>, Seq<char>)) -> Seq<Seq<char>>
    decreases entries.len(),
{
    if entries.len() == 0 {
        Seq::empty()
    } else {
        let rest = names_for(entries.drop_last(), v);
        if entries.last().version@ == v {
            rest.push(entries.last().name@)
        } else {
            rest
        }
    }
}

/// The grouping that lists artifact names by compiler version: versions in
/// semver order, each once; each group holds exactly the names built by its
/// version, in the order given; every version given has its group, and every
/// group's version was given.
pub open spec fn groups_by_version(groups: Seq<VersionGroup>, entries: Seq<VersionedName>) -> bool {
    &&& groups_match_entries(groups, entries)
    &&& forall|i: int| 0 <= i < groups.len() ==> version_given((#[trigger] groups[i]).version@, entries)
}

/// Whether some entry has the version.
pub open spec fn version_given(v: (u64, u64, u64, Seq<char>, Seq<char>), entries: Seq<VersionedName>) -> bool {
    exists|k: int| 0 <= k < entries.len() && entries[k].version@ == v
}

/// The grouping's order, names and coverage of the given versions.
pub open spec fn groups_match_entries(groups: Seq<VersionGroup>, entries: Seq<VersionedName>) -> bool {
    &&& forall|i: int, j: int| 0 <= i < j < groups.len() ==> version_lt(#[trigger] groups[i].version, #[trigger] groups[j].version)
    &&& forall|i: int| 0 <= i < groups.len() ==> strings_view((#[trigger] groups[i]).names@) == names_for(entries, groups[i].version@)
    &&& forall|i: int| 0 <= i < groups.len() ==> (#[trigger] groups[i]).names@.len() > 0
    &&& forall|k: int| 0 <= k < entries.len() ==> exists|i: int| 0 <= i < groups.len() && groups[i].version@ == (#[trigger] entries[k]).version@
}

/// Groups artifact names by the compiler version that built them, versions in
/// semver order (pre-release and build metadata included).
pub fn group_names_by_version(entries: &Vec<VersionedName>) -> (groups: Vec<VersionGroup>)
    ensures
        groups_by_version(groups@, entries@),
{
    let ghost es = entries@;
    let mut groups: Vec<VersionGroup> = Vec::new();
    let mut i: usize = 0;
    while i < entries.len()
        invariant
            es == entries@,
            i <= es.len(),
            groups_match_entries(groups@, es.take(i as int)),
        decreases es.len() - i,
    {
        let e = &entries[i];
        let ghost pre = es.take(i as int);
        let ghost post = es.take(i + 1);
        assert(post.drop_last() =~= pre);
        assert(post.last() == *e);
        let ghost old_groups = groups@;
        // look for the group of this version, or the place of a new one
        let mut j: usize = 0;
        while j < groups.len() && compare_versions(&groups[j].version, &e.version) < 0
            invariant
                groups@ == old_groups,
                j <= groups@.len(),
                forall|m: int| 0 <= m < j ==> version_lt(#[trigger] groups@[m].version, e.version),
            decreases groups@.len() - j,
        {
            j = j + 1;
        }
        let found = j < groups.len() && compare_versions(&groups[j].version, &e.version) == 0;
        proof {
            lemma_version_order(e.version@, e.version@, e.version@);
            if j < groups@.len() {
                lemma_version_order(groups@[j as int].version@, e.version@, e.version@);
            }
        }
        if found {
            let ghost g = groups@[j as int];
            let mut group = groups.remove(j);
            group.names.push(e.name.clone());
            assert(strings_view(group.names@) =~= strings_view(g.names@).push(e.name@));
            groups.insert(j, group);
            proof {
                let ng = groups@;
                assert forall|a: int| 0 <= a < ng.len() && a != j implies ng[a] == old_groups[a] by {}
                assert forall|a: int, b: int| 0 <= a < b < ng.len() implies version_lt(#[trigger] ng[a].version, #[trigger] ng[b].version) by {
                    assert(ng[a].version == old_groups[a].version);
                    assert(ng[b].version == old_groups[b].version);
                }
                assert forall|a: int| 0 <= a < ng.len() implies strings_view((#[trigger] ng[a]).names@) == names_for(post, ng[a].version@) by {
                    if a != j {
                        assert(ng[a] == old_groups[a]);
                        assert(old_groups[a].version@ != e.version@) by {
                            if a < j {
                                assert(version_lt(old_groups[a].version, e.version));
                            } else {
                                assert(version_lt(old_groups[j as int].version, old_groups[a].version));
                            }
                        }
                    }
                }
                assert forall|a: int| 0 <= a < ng.len() implies (#[trigger] ng[a]).names@.len() > 0 by {
                    if a != j {
                        assert(ng[a] == old_groups[a]);
                    }
                }
                assert forall|k: int| 0 <= k < post.len() implies exists|a: int| 0 <= a < ng.len() && ng[a].version@ == (#[trigger] post[k]).version@ by {
                    if k < pre.len() {
                        assert(post[k] == pre[k]);
                        let a = choose|a: int| 0 <= a < old_groups.len() && old_groups[a].version@ == pre[k].version@;
                        assert(ng[a].version == old_groups[a].version);
                    } else {
                        assert(ng[j as int].version@ == post[k].version@);
                    }
                }
            }
        } else {
            let mut names: Vec<String> = Vec::new();
            names.push(e.name.clone());
            let group = VersionGroup { version: e.version.duplicate(), names };
            proof {
                assert(names_for(pre, e.version@) =~= Seq::<Seq<char>>::empty()) by {
                    if names_for(pre, e.version@).len() > 0 {
                        lemma_names_for_witness(pre, e.version@);
                        let k = choose|k: int| 0 <= k < pre.len() && pre[k].version@ == e.version@;
                        let a = choose|a: int| 0 <= a < old_groups.len() && old_groups[a].version@ == (#[trigger] pre[k]).version@;
                        if a < j {
                            assert(version_lt(old_groups[a].version, e.version));
                        } else if a == j {
                        } else {
                            assert(version_lt(old_groups[j as int].version, old_groups[a].version));
                            assert(!version_lt(old_groups[j as int].version, e.version));
                        }
                    }
                }
                assert(strings_view(group.names@) =~= names_for(post, e.version@));
            }
            groups.insert(j, group);
            proof {
                let ng = groups@;
                assert forall|a: int, b: int| 0 <= a < b < ng.len() implies version_lt(#[trigger] ng[a].version, #[trigger] ng[b].version) by {
                    if b < j {
                        assert(ng[a] == old_groups[a] && ng[b] == old_groups[b]);
                    } else if b == j {
                        assert(ng[a] == old_groups[a]);
                    } else if a == j {
                        assert(ng[b] == old_groups[b - 1]);
                        lemma_version_order(e.version@, old_groups[j as int].version@, old_groups[b - 1].version@);
                        if b - 1 > j {
                            assert(version_lt(old_groups[j as int].version, old_groups[b - 1].version));
                        }
                    } else if a < j {
                        assert(ng[a] == old_groups[a] && ng[b] == old_groups[b - 1]);
                    } else {
                        assert(ng[a] == old_groups[a - 1] && ng[b] == old_groups[b - 1]);
                    }
                }
                assert forall|a: int| 0 <= a < ng.len() implies strings_view((#[trigger] ng[a]).names@) == names_for(post, ng[a].version@) by {
                    if a != j {
                        let o = if a < j { a } else { a - 1 };
                        assert(ng[a] == old_groups[o]);
                        assert(old_groups[o].version@ != e.version@) by {
                            if o < j {
                            } else {
                                assert(!version_lt(old_groups[j as int].version, e.version));
                            }
                        }
                    }
                }
                assert forall|a: int| 0 <= a < ng.len() implies (#[trigger] ng[a]).names@.len() > 0 by {
                    if a < j {
                        assert(ng[a] == old_groups[a]);
                    } else if a > j {
                        assert(ng[a] == old_groups[a - 1]);
                    }
                }
                assert forall|k: int| 0 <= k < post.len() implies exists|a: int| 0 <= a < ng.len() && ng[a].version@ == (#[trigger] post[k]).version@ by {
                    if k < pre.len() {
                        assert(post[k] == pre[k]);
                        let a = choose|a: int| 0 <= a < old_groups.len() && old_groups[a].version@ == pre[k].version@;
                        if a < j {
                            assert(ng[a] == old_groups[a]);
                        } else {
                            assert(ng[a + 1] == old_groups[a]);
                        }
                    } else {
                        assert(ng[j as int].version@ == post[k].version@);
                    }
                }
            }
        }
        i = i + 1;
    }
    assert(es.take(es.len() as int) =~= es);
    assert forall|g: int| 0 <= g < groups@.len() implies version_given((#[trigger] groups@[g]).version@, es) by {
        assert(strings_view(groups@[g].names@).len() == groups@[g].names@.len());
        lemma_names_for_witness(es, groups@[g].version@);
    }
    assert(groups_match_entries(groups@, es));
    assert(groups_by_version(groups@, es));
    groups
}

/// The names built by a version are the names of the entries of that
/// version, in the order given.
pub proof fn lemma_names_for_filter(entries: Seq<VersionedName>, v: (u64, u64, u64, Seq<char>, Seq<char>))
    ensures
        names_for(entries, v) == entries.filter(|e: VersionedName| e.version@ == v).map_values(|e: VersionedName| e.name@),
    decreases entries.len(),
{
    let pred = |e: VersionedName| e.version@ == v;
    let f = |e: VersionedName| e.name@;
    reveal(Seq::filter);
    if entries.len() > 0 {
        let init = entries.drop_last();
        lemma_names_for_filter(init, v);
        if pred(entries.last()) {
            assert(entries.filter(pred) == init.filter(pred).push(entries.last()));
            assert(init.filter(pred).push(entries.last()).map_values(f) =~= init.filter(pred).map_values(f).push(f(entries.last())));
        } else {
            assert(entries.filter(pred) == init.filter(pred));
        }
    } else {
        assert(entries.filter(pred) == entries);
        assert(entries.map_values(f) =~= Seq::<Seq<char>>::empty());
    }
}

/// A version with names has an entry of that version.
proof fn lemma_names_for_witness(entries: Seq<VersionedName>, v: (u64, u64, u64, Seq<char>, Seq<char>))
    requires
        names_for(entries, v).len() > 0,
    ensures
        version_given(v, entries),
    decreases entries.len(),
{
    if entries.last().version@ == v {
        assert(entries[entries.len() - 1].version@ == v);
    } else {
        lemma_names_for_witness(entries.drop_last(), v);
        let k = choose|k: int| 0 <= k < entries.drop_last().len() && entries.drop_last()[k].version@ == v;
        assert(entries[k] == entries.drop_last()[k]);
    }
}

} // verus!

verus! {

/// Settings of one compilation of a project.
pub struct ProjectCompiler {
    /// The project's root directory.
    pub project_root: String,
    /// Whether to also list contract names.
    pub print_names: bool,
    /// Whether to also report contract sizes.
    pub print_sizes: bool,
    /// Whether to fail on compiler errors.
    pub bail: bool,
    /// Whether to skip the initcode size limit of EIP-3860.
    pub ignore_eip_3860: bool,
    /// Files to compile in place of the project's own sources, when not empty.
    pub files: Vec<String>,
}

/// What follows a compilation, given its outcome.
pub enum CompileOutcome {
    /// Fail with the compiler's output: it has errors and errors are fatal.
    Bail,
    /// Report nothing (machine-readable output was asked for).
    Silent,
    /// Say that no file changed, then report names and sizes as configured.
    Unchanged,
    /// Show the compiler's output, then report names and sizes as configured.
    Report,
}

/// What the output report holds.
pub struct OutputPlan {
    /// List the artifact names by compiler version.
    pub list_names: bool,
    /// Put an empty line between the name list and the size report.
    pub separate_sections: bool,
    /// Report contract sizes and check them against the limits.
    pub report_sizes: bool,
}

impl ProjectCompiler {
    /// The settings with which the test command compiles: no name list, no
    /// size report, compiler errors fatal, the initcode limit checked, and the
    /// given files compiled.
    pub fn for_tests(project_root: String, files: Vec<String>) -> (r: ProjectCompiler)
        ensures
            r.project_root == project_root,
            r.files == files,
            !r.print_names,
            !r.print_sizes,
            r.bail,
            !r.ignore_eip_3860,
    {
        ProjectCompiler { project_root, print_names: false, print_sizes: false, bail: true, ignore_eip_3860: false, files }
    }

    /// Whether there is nothing to compile: the project has no input files and
    /// no extra files were given.
    pub fn nothing_to_compile(&self, has_input_files: bool) -> (r: bool)
        ensures
            r == (!has_input_files && self.files@.len() == 0),
    {
        !has_input_files && self.files.len() == 0
    }

    /// Whether the given files, rather than the project's input files, are
    /// the sources to compile.
    pub fn compiles_given_files(&self) -> (r: bool)
        ensures
            r == (self.files@.len() != 0),
    {
        self.files.len() != 0
    }

    /// What follows a compilation: errors are fatal when `bail` is set;
    /// otherwise nothing is shown in machine-readable mode, and the output (or
    /// the note that nothing changed) is shown before the report.
    pub fn outcome(&self, has_compiler_errors: bool, is_json: bool, is_unchanged: bool) -> (r: CompileOutcome)
        ensures
            r == if self.bail && has_compiler_errors {
                CompileOutcome::Bail
            } else if is_json {
                CompileOutcome::Silent
            } else if is_unchanged {
                CompileOutcome::Unchanged
            } else {
                CompileOutcome::Report
            },
    {
        if self.bail && has_compiler_errors {
            CompileOutcome::Bail
        } else if is_json {
            CompileOutcome::Silent
        } else if is_unchanged {
            CompileOutcome::Unchanged
        } else {
            CompileOutcome::Report
        }
    }

    /// What the report after a compilation holds.
    pub fn output_plan(&self, is_json: bool) -> (r: OutputPlan)
        ensures
            r.list_names == self.print_names,
            r.report_sizes == self.print_sizes,
            r.separate_sections == (self.print_names && self.print_sizes && !is_json),
    {
        OutputPlan {
            list_names: self.print_names,
            separate_sections: self.print_names && self.print_sizes && !is_json,
            report_sizes: self.print_sizes,
        }
    }
}

} // verus!
