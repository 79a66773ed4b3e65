//! The compiled probe as an ELF object: its maps, its programs and their relocations.

use vstd::prelude::*;
use vstd::slice::slice_subrange;
use crate::text;

verus! {

/// ELF section type of program bytes.
pub const SHT_PROGBITS: u32 = 1;

/// ELF section type of relocations without addends.
pub const SHT_REL: u32 = 9;

/// Opcode of the two-slot instruction that loads a 64-bit immediate.
pub const BPF_LD_IMM64: u8 = 0x18;

/// Size of one instruction slot.
pub const BPF_INSN_SIZE: usize = 8;

pub const BPF_MAP_TYPE_HASH: u32 = 1;

pub const BPF_MAP_TYPE_ARRAY: u32 = 2;

/// Capacity of the task maps.
pub const MAX_PIDS: usize = 8192;

// ---- The parsed object ----

/// One section header with its name, where the string table has one.
pub struct Section {
    pub name: Option<String>,
    pub sh_type: u32,
    pub sh_offset: u64,
    pub sh_size: u64,
    pub sh_info: u32,
}

/// One symbol with its name, where the string table has one.
pub struct Symbol {
    pub name: Option<String>,
    pub shndx: usize,
}

/// The sections and symbols of an object file.
pub struct ElfObject {
    pub sections: Vec<Section>,
    pub symbols: Vec<Symbol>,
}

#[verifier::ext_equal]
pub struct SectionView {
    pub name: Option<Seq<char>>,
    pub sh_type: u32,
    pub sh_offset: u64,
    pub sh_size: u64,
    pub sh_info: u32,
}

#[verifier::ext_equal]
pub struct SymbolView {
    pub name: Option<Seq<char>>,
    pub shndx: usize,
}

#[verifier::ext_equal]
pub struct ObjectView {
    pub sections: Seq<SectionView>,
    pub symbols: Seq<SymbolView>,
}

/// What an optional string spells.
pub open spec fn spelled(name: Option<String>) -> Option<Seq<char>> {
    match name {
        Some(n) => Some(n@),
        None => None,
    }
}

impl View for Section {
    type V = SectionView;

    open spec fn view(&self) -> SectionView {
        SectionView {
            name: spelled(self.name),
            sh_type: self.sh_type,
            sh_offset: self.sh_offset,
            sh_size: self.sh_size,
            sh_info: self.sh_info,
        }
    }
}

impl View for Symbol {
    type V = SymbolView;

    open spec fn view(&self) -> SymbolView {
        SymbolView { name: spelled(self.name), shndx: self.shndx }
    }
}

impl View for ElfObject {
    type V = ObjectView;

    open spec fn view(&self) -> ObjectView {
        ObjectView {
            sections: self.sections@.map_values(|s: Section| s@),
            symbols: self.symbols@.map_values(|s: Symbol| s@),
        }
    }
}

/// The sections and symbols that `goblin` finds in `data`; none where it rejects the file.
pub uninterp spec fn elf_object(data: Seq<u8>) -> Option<ObjectView>;

/// `goblin::elf::Elf::parse`, with the names that its string tables give to sections and
/// symbols. The result depends on the bytes of the file alone; how ELF is read is not
/// restated here.
#[verifier::external_body]
pub(crate) fn parse_elf(data: &[u8]) -> (r: Option<ElfObject>)
    ensures
        match r {
            Some(o) => elf_object(data@) == Some(o@),
            None => elf_object(data@) is None,
        },
{
    let elf = goblin::elf::Elf::parse(data).ok()?;
    let sections = elf.section_headers.iter().map(|s| Section {
        name: elf.shdr_strtab.get_at(s.sh_name).map(String::from),
        sh_type: s.sh_type,
        sh_offset: s.sh_offset,
        sh_size: s.sh_size,
        sh_info: s.sh_info,
    }).collect();
    let symbols = elf.syms.iter().map(|s| Symbol {
        name: elf.strtab.get_at(s.st_name).map(String::from),
        shndx: s.st_shndx,
    }).collect();
    Some(ElfObject { sections, symbols })
}

// ---- Maps ----

/// A map that the probe declares, and its descriptor once created.
pub struct BpfMapDef {
    pub name: &'static str,
    pub map_type: u32,
    pub key_size: u32,
    pub value_size: u32,
    pub max_entries: u32,
    pub fd: i32,
}

/// The names of the maps that the probe has to declare, in their order of creation.
pub open spec fn map_names() -> Seq<Seq<char>> {
    seq!["stats"@, "sched_start"@, "pid_gen"@, "latency"@]
}

/// The four maps of the probe, not created yet.
pub fn map_defs() -> (maps: Vec<BpfMapDef>)
    ensures
        maps@.len() == 4,
        forall|i: int| 0 <= i < 4 ==> (#[trigger] maps@[i]).name@ == map_names()[i] && maps@[i].fd == -1,
        forall|i: int|
            0 <= i < 3 ==> (#[trigger] maps@[i]).map_type == BPF_MAP_TYPE_HASH && maps@[i].max_entries == MAX_PIDS,
        maps@[0].key_size == 16 && maps@[0].value_size == 64,
        forall|i: int| 1 <= i < 4 ==> (#[trigger] maps@[i]).key_size == 4 && maps@[i].value_size == 8,
        maps@[3].map_type == BPF_MAP_TYPE_ARRAY && maps@[3].max_entries == 32,
{
    let mut maps: Vec<BpfMapDef> = Vec::new();
    maps.push(
        BpfMapDef {
            name: "stats",
            map_type: BPF_MAP_TYPE_HASH,
            key_size: 16,
            value_size: 64,
            max_entries: MAX_PIDS as u32,
            fd: -1,
        },
    );
    maps.push(
        BpfMapDef {
            name: "sched_start",
            map_type: BPF_MAP_TYPE_HASH,
            key_size: 4,
            value_size: 8,
            max_entries: MAX_PIDS as u32,
            fd: -1,
        },
    );
    maps.push(
        BpfMapDef {
            name: "pid_gen",
            map_type: BPF_MAP_TYPE_HASH,
            key_size: 4,
            value_size: 8,
            max_entries: MAX_PIDS as u32,
            fd: -1,
        },
    );
    maps.push(
        BpfMapDef {
            name: "latency",
            map_type: BPF_MAP_TYPE_ARRAY,
            key_size: 4,
            value_size: 8,
            max_entries: 32,
            fd: -1,
        },
    );
    maps
}

/// The index of the map called `name`.
pub open spec fn map_index(name: Seq<char>) -> Option<int> {
    if name == map_names()[0] {
        Some(0)
    } else if name == map_names()[1] {
        Some(1)
    } else if name == map_names()[2] {
        Some(2)
    } else if name == map_names()[3] {
        Some(3)
    } else {
        None
    }
}

fn find_map(name: &str) -> (r: Option<usize>)
    ensures
        match r {
            Some(i) => i < 4 && map_index(name@) == Some(i as int),
            None => map_index(name@) is None,
        },
{
    if text::same_text(name, "stats") {
        Some(0)
    } else if text::same_text(name, "sched_start") {
        Some(1)
    } else if text::same_text(name, "pid_gen") {
        Some(2)
    } else if text::same_text(name, "latency") {
        Some(3)
    } else {
        None
    }
}

/// Whether an optional name spells `wanted`.
fn is_named(name: &Option<String>, wanted: &str) -> (r: bool)
    ensures
        r == (spelled(*name) == Some(wanted@)),
{
    match name {
        Some(n) => text::same_text(n.as_str(), wanted),
        None => false,
    }
}

/// The first section called `name` among those from `from` on.
pub open spec fn section_from(o: ObjectView, name: Seq<char>, from: nat) -> Option<int>
    decreases o.sections.len() - from,
{
    if from >= o.sections.len() {
        None
    } else if o.sections[from as int].name == Some(name) {
        Some(from as int)
    } else {
        section_from(o, name, from + 1)
    }
}

/// The section that holds the map declarations.
pub open spec fn maps_section(o: ObjectView) -> Option<int> {
    section_from(o, ".maps"@, 0)
}

/// A symbol's name; empty where it has none.
pub open spec fn symbol_name(s: SymbolView) -> Seq<char> {
    match s.name {
        Some(n) => n,
        None => ""@,
    }
}

/// Symbol `i` lies in the section of map declarations.
pub open spec fn declares_map(o: ObjectView, i: int) -> bool {
    maps_section(o) == Some(o.symbols[i].shndx as int)
}

/// The map that symbol `i` declares.
pub open spec fn symbol_map(o: ObjectView, i: int) -> Option<int> {
    if 0 <= i < o.symbols.len() && declares_map(o, i) {
        map_index(symbol_name(o.symbols[i]))
    } else {
        None
    }
}

/// Symbol `i` declares a map under a name that the probe must not have.
pub open spec fn is_unknown_map(o: ObjectView, i: int) -> bool {
    &&& declares_map(o, i)
    &&& symbol_name(o.symbols[i]).len() > 0
    &&& map_index(symbol_name(o.symbols[i])) is None
}

/// Some symbol declares map `m`.
pub open spec fn is_declared(o: ObjectView, m: int) -> bool {
    exists|i: int| 0 <= i < o.symbols.len() && #[trigger] symbol_map(o, i) == Some(m)
}

/// Why an object is no probe.
#[derive(Clone, Copy, PartialEq, Eq, Structural, Debug)]
pub enum Rejection {
    /// The symbol with this index declares an unknown map.
    UnknownMap(usize),
    /// No symbol declares the map with this index.
    MissingMap(usize),
    /// No program section has the required name with this index.
    MissingSection(usize),
}

/// The map that each symbol declares.
pub fn bind_maps(o: &ElfObject) -> (r: Result<Vec<Option<usize>>, Rejection>)
    ensures
        match r {
            Ok(bound) => {
                &&& bound@.len() == o@.symbols.len()
                &&& forall|i: int|
                    0 <= i < o@.symbols.len() ==> match #[trigger] bound@[i] {
                        Some(m) => m < 4 && symbol_map(o@, i) == Some(m as int),
                        None => symbol_map(o@, i) is None,
                    }
                &&& forall|i: int| 0 <= i < o@.symbols.len() ==> !is_unknown_map(o@, i)
                &&& forall|m: int| 0 <= m < 4 ==> is_declared(o@, m)
            },
            Err(Rejection::UnknownMap(k)) => {
                &&& k < o@.symbols.len()
                &&& is_unknown_map(o@, k as int)
                &&& forall|i: int| 0 <= i < k ==> !is_unknown_map(o@, i)
            },
            Err(Rejection::MissingMap(m)) => {
                &&& m < 4
                &&& forall|i: int| 0 <= i < o@.symbols.len() ==> !is_unknown_map(o@, i)
                &&& !is_declared(o@, m as int)
                &&& forall|j: int| 0 <= j < m ==> is_declared(o@, j)
            },
            Err(Rejection::MissingSection(_)) => false,
        },
{
    let section = find_maps_section(o);
    let mut bound: Vec<Option<usize>> = Vec::new();
    let mut found: [bool; 4] = [false; 4];
    let mut i: usize = 0;
    while i < o.symbols.len()
        invariant
            i <= o.symbols@.len(),
            o@.symbols.len() == o.symbols@.len(),
            match section {
                Some(s) => maps_section(o@) == Some(s as int),
                None => maps_section(o@) is None,
            },
            bound@.len() == i,
            forall|k: int|
                0 <= k < i ==> match #[trigger] bound@[k] {
                    Some(m) => m < 4 && symbol_map(o@, k) == Some(m as int),
                    None => symbol_map(o@, k) is None,
                },
            forall|k: int| 0 <= k < i ==> !is_unknown_map(o@, k),
            forall|m: int|
                0 <= m < 4 ==> (#[trigger] found@[m] <==> exists|k: int|
                    0 <= k < i && #[trigger] symbol_map(o@, k) == Some(m)),
        decreases o.symbols@.len() - i,
    {
        let sym = &o.symbols[i];
        proof {
            assert(o@.symbols[i as int] == sym@);
        }
        let here: bool = match section {
            Some(s) => sym.shndx == s,
            None => false,
        };
        let mut map: Option<usize> = None;
        if here {
            let name: &str = match &sym.name {
                Some(n) => n.as_str(),
                None => "",
            };
            map = find_map(name);
            if map.is_none() && !name.is_empty() {
                return Err(Rejection::UnknownMap(i));
            }
        }
        let ghost before = found@;
        match map {
            Some(m) => {
                found[m] = true;
            },
            None => {},
        }
        bound.push(map);
        proof {
            assert(symbol_map(o@, i as int) == match map {
                Some(m) => Some(m as int),
                None => None::<int>,
            });
            assert forall|m: int| 0 <= m < 4 implies (#[trigger] found@[m] <==> exists|k: int|
                0 <= k < i + 1 && #[trigger] symbol_map(o@, k) == Some(m)) by {
                if found@[m] {
                    if map != Some(m as usize) {
                        assert(before[m]);
                        let k = choose|k: int| 0 <= k < i && #[trigger] symbol_map(o@, k) == Some(m);
                        assert(symbol_map(o@, k) == Some(m));
                    } else {
                        assert(symbol_map(o@, i as int) == Some(m));
                    }
                }
                if exists|k: int| 0 <= k < i + 1 && #[trigger] symbol_map(o@, k) == Some(m) {
                    let k = choose|k: int| 0 <= k < i + 1 && #[trigger] symbol_map(o@, k) == Some(m);
                    if k < i {
                        assert(before[m]);
                    }
                }
            }
        }
        i += 1;
    }
    let mut m: usize = 0;
    while m < 4
        invariant
            m <= 4,
            i == o@.symbols.len(),
            forall|k: int| 0 <= k < o@.symbols.len() ==> !is_unknown_map(o@, k),
            forall|j: int|
                0 <= j < 4 ==> (#[trigger] found@[j] <==> exists|k: int|
                    0 <= k < i && #[trigger] symbol_map(o@, k) == Some(j)),
            forall|j: int| 0 <= j < m ==> is_declared(o@, j),
        decreases 4 - m,
    {
        proof {
            assert(found@[m as int] <==> is_declared(o@, m as int));
        }
        if !found[m] {
            return Err(Rejection::MissingMap(m));
        }
        m += 1;
    }
    Ok(bound)
}

/// The section that holds the map declarations.
fn find_maps_section(o: &ElfObject) -> (r: Option<usize>)
    ensures
        match r {
            Some(s) => maps_section(o@) == Some(s as int),
            None => maps_section(o@) is None,
        },
{
    let mut i: usize = 0;
    while i < o.sections.len()
        invariant
            i <= o.sections@.len(),
            maps_section(o@) == section_from(o@, ".maps"@, i as nat),
        decreases o.sections@.len() - i,
    {
        if is_named(&o.sections[i].name, ".maps") {
            return Some(i);
        }
        i += 1;
    }
    None
}

// ---- Programs ----

/// The section holds a tracepoint program.
pub open spec fn is_program(s: SectionView) -> bool {
    match s.name {
        Some(n) => text::occurs_at(n, "tracepoint/"@, 0) && s.sh_type == SHT_PROGBITS && s.sh_size > 0,
        None => false,
    }
}

/// The indices below `n` of sections that hold programs, in order.
pub open spec fn programs_below(o: ObjectView, n: int) -> Seq<int>
    decreases n,
{
    if n <= 0 {
        Seq::empty()
    } else if is_program(o.sections[n - 1]) {
        programs_below(o, n - 1).push(n - 1)
    } else {
        programs_below(o, n - 1)
    }
}

/// The indices of the sections that hold programs, in order.
pub open spec fn programs(o: ObjectView) -> Seq<int> {
    programs_below(o, o.sections.len() as int)
}

/// `progs` lists the sections that hold programs, in order.
pub open spec fn lists_programs(o: ObjectView, progs: Seq<usize>) -> bool {
    &&& progs.map_values(|i: usize| i as int) == programs(o)
    &&& forall|k: int|
        0 <= k < progs.len() ==> (#[trigger] progs[k]) < o.sections.len() && is_program(o.sections[progs[k] as int])
}

/// The indices of the sections that hold programs, in order.
pub fn program_sections(o: &ElfObject) -> (r: Vec<usize>)
    ensures
        lists_programs(o@, r@),
{
    let mut r: Vec<usize> = Vec::new();
    let mut i: usize = 0;
    proof {
        assert(r@.map_values(|i: usize| i as int) =~= programs_below(o@, 0));
    }
    while i < o.sections.len()
        invariant
            i <= o.sections@.len(),
            r@.map_values(|i: usize| i as int) == programs_below(o@, i as int),
            forall|k: int| 0 <= k < r@.len() ==> (#[trigger] r@[k]) < i && is_program(o@.sections[r@[k] as int]),
        decreases o.sections@.len() - i,
    {
        let s = &o.sections[i];
        proof {
            assert(o@.sections[i as int] == s@);
        }
        let named: bool = match &s.name {
            Some(n) => text::starts_with(n.as_str(), "tracepoint/"),
            None => false,
        };
        let ghost before = r@;
        if named && s.sh_type == SHT_PROGBITS && s.sh_size > 0 {
            r.push(i);
            proof {
                assert(r@.map_values(|i: usize| i as int) =~= before.map_values(|i: usize| i as int).push(
                    i as int,
                ));
            }
        }
        i += 1;
    }
    r
}

/// The names of the programs that a probe must have.
pub open spec fn required_sections() -> Seq<Seq<char>> {
    seq![
        "tracepoint/sched/sched_switch"@,
        "tracepoint/sched/sched_process_fork"@,
        "tracepoint/sched/sched_process_exit"@,
        "tracepoint/sched/sched_process_free"@,
    ]
}

/// Some program section is called `name`.
pub open spec fn has_program(o: ObjectView, name: Seq<char>) -> bool {
    exists|i: int|
        0 <= i < o.sections.len() && is_program(#[trigger] o.sections[i]) && o.sections[i].name == Some(name)
}

fn program_named(o: &ElfObject, progs: &Vec<usize>, name: &str) -> (r: bool)
    requires
        lists_programs(o@, progs@),
    ensures
        r == has_program(o@, name@),
{
    let mut k: usize = 0;
    while k < progs.len()
        invariant
            k <= progs@.len(),
            lists_programs(o@, progs@),
            forall|j: int| 0 <= j < k ==> o@.sections[#[trigger] progs@[j] as int].name != Some(name@),
        decreases progs@.len() - k,
    {
        let i: usize = progs[k];
        proof {
            assert(o@.sections[i as int] == o.sections@[i as int]@);
        }
        if is_named(&o.sections[i].name, name) {
            return true;
        }
        k += 1;
    }
    proof {
        if has_program(o@, name@) {
            let i = choose|i: int|
                0 <= i < o@.sections.len() && is_program(#[trigger] o@.sections[i]) && o@.sections[i].name == Some(name@);
            lemma_programs_complete(o@, o@.sections.len() as int, i);
            let j = programs(o@).index_of(i);
            assert(progs@.map_values(|i: usize| i as int)[j] == i);
            assert(progs@[j] == i);
        }
    }
    false
}

/// Every program section is listed.
pub proof fn lemma_programs_complete(o: ObjectView, n: int, i: int)
    requires
        0 <= i < n <= o.sections.len(),
        is_program(o.sections[i]),
    ensures
        programs_below(o, n).contains(i),
    decreases n,
{
    let rest = programs_below(o, n - 1);
    if i < n - 1 {
        lemma_programs_complete(o, n - 1, i);
        let k = rest.index_of(i);
        assert(programs_below(o, n)[k] == i);
    } else {
        assert(programs_below(o, n)[rest.len() as int] == i);
    }
}

/// Every required program is there.
pub fn check_programs(o: &ElfObject, progs: &Vec<usize>) -> (r: Option<Rejection>)
    requires
        lists_programs(o@, progs@),
    ensures
        match r {
            None => forall|i: int| 0 <= i < 4 ==> has_program(o@, #[trigger] required_sections()[i]),
            Some(Rejection::MissingSection(k)) => {
                &&& k < 4
                &&& !has_program(o@, required_sections()[k as int])
                &&& forall|i: int| 0 <= i < k ==> has_program(o@, #[trigger] required_sections()[i])
            },
            Some(_) => false,
        },
{
    if !program_named(o, progs, "tracepoint/sched/sched_switch") {
        return Some(Rejection::MissingSection(0));
    }
    if !program_named(o, progs, "tracepoint/sched/sched_process_fork") {
        return Some(Rejection::MissingSection(1));
    }
    if !program_named(o, progs, "tracepoint/sched/sched_process_exit") {
        return Some(Rejection::MissingSection(2));
    }
    if !program_named(o, progs, "tracepoint/sched/sched_process_free") {
        return Some(Rejection::MissingSection(3));
    }
    None
}

/// The category and the event that a section name gives behind its first two slashes.
pub open spec fn tracepoint_of(name: Seq<char>) -> Option<(Seq<char>, Seq<char>)> {
    let a = text::next_separator(name, '/', 0);
    let b = text::next_separator(name, '/', a + 1);
    if a >= name.len() || b >= name.len() {
        None
    } else {
        Some((name.subrange(a as int + 1, b as int), name.subrange(b as int + 1, name.len() as int)))
    }
}

/// The category and the event in a section name.
pub fn tracepoint_parts(name: &str) -> (r: Option<(String, String)>)
    ensures
        match r {
            Some((cat, event)) => tracepoint_of(name@) == Some((cat@, event@)),
            None => tracepoint_of(name@) is None,
        },
{
    let c = text::chars_of(name);
    let a: usize = text::next_char(&c, '/', 0);
    if a >= c.len() {
        return None;
    }
    let b: usize = text::next_char(&c, '/', a + 1);
    if b >= c.len() {
        return None;
    }
    let cat = text::string_of(slice_subrange(&c, a + 1, b));
    let event = text::string_of(slice_subrange(&c, b + 1, c.len()));
    Some((cat, event))
}

/// Every required section name is the name of a scheduler tracepoint.
pub proof fn required_sections_name_tracepoints()
    ensures
        tracepoint_of(required_sections()[0]) == Some(("sched"@, "sched_switch"@)),
        tracepoint_of(required_sections()[1]) == Some(("sched"@, "sched_process_fork"@)),
        tracepoint_of(required_sections()[2]) == Some(("sched"@, "sched_process_exit"@)),
        tracepoint_of(required_sections()[3]) == Some(("sched"@, "sched_process_free"@)),
{
    reveal_strlit("sched");
    reveal_strlit("sched_switch");
    reveal_strlit("sched_process_fork");
    reveal_strlit("sched_process_exit");
    reveal_strlit("sched_process_free");
    reveal_strlit("tracepoint/sched/sched_switch");
    reveal_strlit("tracepoint/sched/sched_process_fork");
    reveal_strlit("tracepoint/sched/sched_process_exit");
    reveal_strlit("tracepoint/sched/sched_process_free");
    lemma_tracepoint("sched"@, "sched_switch"@, required_sections()[0]);
    lemma_tracepoint("sched"@, "sched_process_fork"@, required_sections()[1]);
    lemma_tracepoint("sched"@, "sched_process_exit"@, required_sections()[2]);
    lemma_tracepoint("sched"@, "sched_process_free"@, required_sections()[3]);
}

proof fn lemma_tracepoint(cat: Seq<char>, event: Seq<char>, name: Seq<char>)
    requires
        !cat.contains('/'),
        name.len() == 10 + 1 + cat.len() + 1 + event.len(),
        forall|i: int| 0 <= i < 10 ==> name[i] != '/',
        name[10] == '/',
        name[11 + cat.len() as int] == '/',
        name.subrange(11, 11 + cat.len() as int) =~= cat,
        name.subrange(12 + cat.len() as int, name.len() as int) =~= event,
    ensures
        tracepoint_of(name) == Some((cat, event)),
{
    text::lemma_next_separator(name, '/', 0);
    assert(text::next_separator(name, '/', 0) == 10);
    text::lemma_next_separator(name, '/', 11);
    let b = text::next_separator(name, '/', 11);
    if b < 11 + cat.len() {
        assert(name.subrange(11, 11 + cat.len() as int)[b - 11] == '/');
        assert(cat[b - 11] == '/');
    }
    assert(b == 11 + cat.len());
}

// ---- Loading ----

/// The header of a request to load a program.
#[derive(Clone, Copy, PartialEq, Eq, Structural, Debug)]
pub struct ProgHeader {
    pub insn_cnt: u32,
    pub log_level: u32,
    pub log_size: u32,
}

/// The header for `insns_len` bytes of instructions and a log of `log_len` bytes, the counts as
/// 32-bit words hold them.
pub fn prog_header(insns_len: usize, log_len: usize) -> (r: ProgHeader)
    ensures
        r.insn_cnt == (insns_len / BPF_INSN_SIZE) as int % 0x1_0000_0000,
        r.log_level == if log_len == 0 {
            0
        } else {
            1int
        },
        r.log_size == log_len as int % 0x1_0000_0000,
{
    ProgHeader {
        insn_cnt: ((insns_len / BPF_INSN_SIZE) as u64 % 0x1_0000_0000) as u32,
        log_level: if log_len == 0 {
            0
        } else {
            1
        },
        log_size: (log_len as u64 % 0x1_0000_0000) as u32,
    }
}

// ---- Relocation ----

/// The little-endian 64-bit number at `at`.
pub open spec fn le64(s: Seq<u8>, at: int) -> int {
    s[at] + s[at + 1] * 0x100 + s[at + 2] * 0x1_0000 + s[at + 3] * 0x100_0000 + s[at + 4] * 0x1_0000_0000
        + s[at + 5] * 0x100_0000_0000 + s[at + 6] * 0x1_0000_0000_0000 + s[at + 7] * 0x100_0000_0000_0000
}

/// The four bytes of a descriptor, lowest first.
pub open spec fn fd_bytes(fd: i32) -> Seq<u8> {
    let u = (fd as u32) as int;
    seq![(u % 256) as u8, (u / 0x100 % 256) as u8, (u / 0x1_0000 % 256) as u8, (u / 0x100_0000 % 256) as u8]
}

/// The bytes of a section; none where it reaches behind the file.
pub open spec fn section_bytes(data: Seq<u8>, s: SectionView) -> Option<Seq<u8>> {
    if s.sh_offset + s.sh_size <= data.len() {
        Some(data.subrange(s.sh_offset as int, s.sh_offset + s.sh_size))
    } else {
        None
    }
}

/// `insns` with the wide load at `at` turned into a load of the map behind `fd`; unchanged
/// where no wide load stands there. None where the end of the instruction has no 64-bit offset.
pub open spec fn patched(insns: Seq<u8>, at: int, fd: i32) -> Option<Seq<u8>> {
    if at + 16 > u64::MAX {
        None
    } else if at + 16 <= insns.len() && insns[at] == BPF_LD_IMM64 {
        let b = fd_bytes(fd);
        Some(
            insns.update(at + 4, b[0]).update(at + 5, b[1]).update(at + 6, b[2]).update(at + 7, b[3]).update(
                at + 1,
                (insns[at + 1] & 0x0f) | 0x10,
            ),
        )
    } else {
        Some(insns)
    }
}

/// Where relocation `i` of the table `rel` points.
pub open spec fn rel_offset(rel: Seq<u8>, i: int) -> int {
    le64(rel, i * 16)
}

/// The symbol that relocation `i` of the table `rel` names.
pub open spec fn rel_symbol(rel: Seq<u8>, i: int) -> int {
    le64(rel, i * 16 + 8) / 0x1_0000_0000
}

/// `insns` after the first `n` relocations of `rel`. Only those that name a declared map count.
pub open spec fn relocated_entries(insns: Seq<u8>, rel: Seq<u8>, o: ObjectView, fds: Seq<i32>, n: int) -> Option<
    Seq<u8>,
>
    decreases n,
{
    if n <= 0 {
        Some(insns)
    } else {
        match relocated_entries(insns, rel, o, fds, n - 1) {
            None => None,
            Some(done) => match symbol_map(o, rel_symbol(rel, n - 1)) {
                Some(m) => patched(done, rel_offset(rel, n - 1), fds[m]),
                None => Some(done),
            },
        }
    }
}

/// Section `k` relocates section `shndx`.
pub open spec fn relocates(o: ObjectView, k: int, shndx: int) -> bool {
    o.sections[k].sh_type == SHT_REL && o.sections[k].sh_info == shndx
}

/// `insns` after the relocations in the first `n` sections.
pub open spec fn relocated_below(
    insns: Seq<u8>,
    data: Seq<u8>,
    o: ObjectView,
    fds: Seq<i32>,
    shndx: int,
    n: int,
) -> Option<Seq<u8>>
    decreases n,
{
    if n <= 0 {
        Some(insns)
    } else {
        match relocated_below(insns, data, o, fds, shndx, n - 1) {
            None => None,
            Some(done) => if relocates(o, n - 1, shndx) {
                match section_bytes(data, o.sections[n - 1]) {
                    None => None,
                    Some(rel) => relocated_entries(done, rel, o, fds, rel.len() as int / 16),
                }
            } else {
                Some(done)
            },
        }
    }
}

/// The instructions of program section `shndx` with the descriptors of the maps put in. None
/// where a section that this needs reaches behind the file, or a relocation behind the address space.
pub open spec fn relocated(data: Seq<u8>, o: ObjectView, fds: Seq<i32>, shndx: int) -> Option<Seq<u8>> {
    match section_bytes(data, o.sections[shndx]) {
        None => None,
        Some(insns) => relocated_below(insns, data, o, fds, shndx, o.sections.len() as int),
    }
}

fn read_le64(b: &[u8], at: usize) -> (v: u64)
    requires
        at + 8 <= b@.len(),
    ensures
        v == le64(b@, at as int),
{
    b[at] as u64 + b[at + 1] as u64 * 0x100 + b[at + 2] as u64 * 0x1_0000 + b[at + 3] as u64 * 0x100_0000 + b[at + 4] as u64
        * 0x1_0000_0000 + b[at + 5] as u64 * 0x100_0000_0000 + b[at + 6] as u64 * 0x1_0000_0000_0000 + b[at + 7] as u64
        * 0x100_0000_0000_0000
}

/// Puts `fd` into the wide load at `at`.
fn patch(insns: &mut Vec<u8>, at: u64, fd: i32) -> (ok: bool)
    ensures
        match patched(old(insns)@, at as int, fd) {
            Some(s) => ok && final(insns)@ == s,
            None => !ok && final(insns)@ == old(insns)@,
        },
{
    if at > u64::MAX - 16 {
        return false;
    }
    if at + 16 <= insns.len() as u64 {
        let i: usize = at as usize;
        if insns[i] == BPF_LD_IMM64 {
            let u: u32 = fd as u32;
            let kind: u8 = (insns[i + 1] & 0x0f) | 0x10;
            insns[i + 4] = (u % 256) as u8;
            insns[i + 5] = (u / 0x100 % 256) as u8;
            insns[i + 6] = (u / 0x1_0000 % 256) as u8;
            insns[i + 7] = (u / 0x100_0000 % 256) as u8;
            insns[i + 1] = kind;
        }
    }
    true
}

/// The bytes of a section.
fn bytes_of_section<'a>(data: &'a [u8], s: &Section) -> (r: Option<&'a [u8]>)
    ensures
        match r {
            Some(b) => section_bytes(data@, s@) == Some(b@),
            None => section_bytes(data@, s@) is None,
        },
{
    let len: u64 = data.len() as u64;
    if s.sh_offset > len || s.sh_size > len - s.sh_offset {
        return None;
    }
    Some(slice_subrange(data, s.sh_offset as usize, (s.sh_offset + s.sh_size) as usize))
}

/// The relation between the bindings that `bind_maps` returns and the object.
pub open spec fn binds(o: ObjectView, bound: Seq<Option<usize>>) -> bool {
    &&& bound.len() == o.symbols.len()
    &&& forall|i: int|
        0 <= i < o.symbols.len() ==> match #[trigger] bound[i] {
            Some(m) => m < 4 && symbol_map(o, i) == Some(m as int),
            None => symbol_map(o, i) is None,
        }
}

/// Applies the relocations of the table `rel`.
fn relocate_entries(
    insns: &mut Vec<u8>,
    rel: &[u8],
    o: Ghost<ObjectView>,
    bound: &Vec<Option<usize>>,
    fds: &[i32],
) -> (ok: bool)
    requires
        binds(o@, bound@),
        fds@.len() == 4,
    ensures
        match relocated_entries(old(insns)@, rel@, o@, fds@, rel@.len() as int / 16) {
            Some(s) => ok && final(insns)@ == s,
            None => !ok,
        },
{
    let count: usize = rel.len() / 16;
    let mut i: usize = 0;
    while i < count
        invariant
            i <= count,
            count == rel@.len() / 16,
            rel@.len() <= usize::MAX,
            binds(o@, bound@),
            fds@.len() == 4,
            relocated_entries(old(insns)@, rel@, o@, fds@, i as int) == Some(insns@),
        decreases count - i,
    {
        let off: usize = i * 16;
        let at: u64 = read_le64(rel, off);
        let info: u64 = read_le64(rel, off + 8);
        let sym: u64 = info / 0x1_0000_0000;
        let target: Option<usize> = if sym < bound.len() as u64 {
            bound[sym as usize]
        } else {
            None
        };
        proof {
            assert(sym == rel_symbol(rel@, i as int));
            assert(at == rel_offset(rel@, i as int));
        }
        match target {
            Some(m) => {
                if !patch(insns, at, fds[m]) {
                    proof {
                        lemma_entries_none(old(insns)@, rel@, o@, fds@, i + 1, count as int);
                    }
                    return false;
                }
            },
            None => {},
        }
        i += 1;
    }
    true
}

/// A failure stays.
proof fn lemma_entries_none(insns: Seq<u8>, rel: Seq<u8>, o: ObjectView, fds: Seq<i32>, i: int, n: int)
    requires
        0 <= i <= n,
        relocated_entries(insns, rel, o, fds, i) is None,
    ensures
        relocated_entries(insns, rel, o, fds, n) is None,
    decreases n - i,
{
    if i < n {
        lemma_entries_none(insns, rel, o, fds, i + 1, n);
    }
}

/// A failure stays.
proof fn lemma_below_none(insns: Seq<u8>, data: Seq<u8>, o: ObjectView, fds: Seq<i32>, shndx: int, i: int, n: int)
    requires
        0 <= i <= n,
        relocated_below(insns, data, o, fds, shndx, i) is None,
    ensures
        relocated_below(insns, data, o, fds, shndx, n) is None,
    decreases n - i,
{
    if i < n {
        lemma_below_none(insns, data, o, fds, shndx, i + 1, n);
    }
}

/// The instructions of program section `shndx`, ready to be loaded.
pub fn relocate(data: &[u8], o: &ElfObject, bound: &Vec<Option<usize>>, fds: &[i32], shndx: usize) -> (r: Option<
    Vec<u8>,
>)
    requires
        binds(o@, bound@),
        fds@.len() == 4,
        shndx < o@.sections.len(),
    ensures
        match r {
            Some(insns) => relocated(data@, o@, fds@, shndx as int) == Some(insns@),
            None => relocated(data@, o@, fds@, shndx as int) is None,
        },
{
    proof {
        assert(o@.sections[shndx as int] == o.sections@[shndx as int]@);
    }
    let raw = match bytes_of_section(data, &o.sections[shndx]) {
        Some(b) => b,
        None => {
            return None;
        },
    };
    let mut insns: Vec<u8> = vstd::slice::slice_to_vec(raw);
    let mut k: usize = 0;
    while k < o.sections.len()
        invariant
            k <= o.sections@.len(),
            o.sections@.len() == o@.sections.len(),
            binds(o@, bound@),
            fds@.len() == 4,
            relocated_below(raw@, data@, o@, fds@, shndx as int, k as int) == Some(insns@),
            section_bytes(data@, o@.sections[shndx as int]) == Some(raw@),
        decreases o.sections@.len() - k,
    {
        let s = &o.sections[k];
        proof {
            assert(o@.sections[k as int] == s@);
        }
        if s.sh_type == SHT_REL && s.sh_info as usize == shndx {
            let ok: bool = match bytes_of_section(data, s) {
                Some(rel) => relocate_entries(&mut insns, rel, Ghost(o@), bound, fds),
                None => false,
            };
            if !ok {
                proof {
                    lemma_below_none(raw@, data@, o@, fds@, shndx as int, k + 1, o@.sections.len() as int);
                }
                return None;
            }
        }
        k += 1;
    }
    Some(insns)
}

// ---- Laws ----

/// Some relocation of section `shndx` that names a declared map writes byte `p`.
pub open spec fn is_touched(data: Seq<u8>, o: ObjectView, shndx: int, p: int) -> bool {
    exists|k: int, i: int| #[trigger] touches(data, o, shndx, k, i, p)
}

/// Relocation `i` in section `k` writes byte `p` of section `shndx`: the kind of its wide load,
/// which lies in the section as a whole, or the low half of its immediate.
pub open spec fn touches(data: Seq<u8>, o: ObjectView, shndx: int, k: int, i: int, p: int) -> bool {
    &&& 0 <= k < o.sections.len()
    &&& relocates(o, k, shndx)
    &&& match section_bytes(data, o.sections[k]) {
        Some(rel) => {
            let at = rel_offset(rel, i);
            &&& 0 <= i < rel.len() as int / 16
            &&& symbol_map(o, rel_symbol(rel, i)) is Some
            &&& at + 16 <= o.sections[shndx].sh_size
            &&& p == at + 1 || at + 4 <= p < at + 8
        },
        None => false,
    }
}

/// Relocation keeps the size of a program, and every byte that no relocation is for.
pub proof fn relocation_is_local(data: Seq<u8>, o: ObjectView, fds: Seq<i32>, shndx: int)
    requires
        0 <= shndx < o.sections.len(),
        relocated(data, o, fds, shndx) is Some,
    ensures
        relocated(data, o, fds, shndx)->0.len() == o.sections[shndx].sh_size,
        forall|p: int|
            0 <= p < o.sections[shndx].sh_size && !is_touched(data, o, shndx, p) ==> (#[trigger] relocated(
                data,
                o,
                fds,
                shndx,
            )->0[p]) == section_bytes(data, o.sections[shndx])->0[p],
{
    let insns = section_bytes(data, o.sections[shndx])->0;
    lemma_below_local(insns, data, o, fds, shndx, o.sections.len() as int);
}

proof fn lemma_below_local(insns: Seq<u8>, data: Seq<u8>, o: ObjectView, fds: Seq<i32>, shndx: int, n: int)
    requires
        0 <= n <= o.sections.len(),
        relocated_below(insns, data, o, fds, shndx, n) is Some,
        insns.len() == o.sections[shndx].sh_size,
    ensures
        relocated_below(insns, data, o, fds, shndx, n)->0.len() == insns.len(),
        forall|p: int|
            0 <= p < insns.len() && !is_touched(data, o, shndx, p) ==> (#[trigger] relocated_below(
                insns,
                data,
                o,
                fds,
                shndx,
                n,
            )->0[p]) == insns[p],
    decreases n,
{
    if n > 0 {
        lemma_below_local(insns, data, o, fds, shndx, n - 1);
        let done = relocated_below(insns, data, o, fds, shndx, n - 1)->0;
        if relocates(o, n - 1, shndx) {
            let rel = section_bytes(data, o.sections[n - 1])->0;
            lemma_entries_local(done, rel, data, o, fds, shndx, n - 1, rel.len() as int / 16);
        }
    }
}

proof fn lemma_entries_local(
    insns: Seq<u8>,
    rel: Seq<u8>,
    data: Seq<u8>,
    o: ObjectView,
    fds: Seq<i32>,
    shndx: int,
    k: int,
    n: int,
)
    requires
        0 <= k < o.sections.len(),
        relocates(o, k, shndx),
        section_bytes(data, o.sections[k]) == Some(rel),
        0 <= n <= rel.len() as int / 16,
        relocated_entries(insns, rel, o, fds, n) is Some,
        insns.len() == o.sections[shndx].sh_size,
    ensures
        relocated_entries(insns, rel, o, fds, n)->0.len() == insns.len(),
        forall|p: int|
            0 <= p < insns.len() && !is_touched(data, o, shndx, p) ==> (#[trigger] relocated_entries(
                insns,
                rel,
                o,
                fds,
                n,
            )->0[p]) == insns[p],
    decreases n,
{
    if n > 0 {
        lemma_entries_local(insns, rel, data, o, fds, shndx, k, n - 1);
        let after = relocated_entries(insns, rel, o, fds, n)->0;
        if symbol_map(o, rel_symbol(rel, n - 1)) is Some {
            assert forall|p: int| 0 <= p < insns.len() && !is_touched(data, o, shndx, p) implies (
            #[trigger] after[p]) == insns[p] by {
                assert(!touches(data, o, shndx, k, n - 1, p));
            }
        }
    }
}

/// A patched wide load carries the descriptor in its immediate, is marked as a map reference and
/// keeps its opcode and its destination register.
pub proof fn patched_load_names_the_map(insns: Seq<u8>, at: int, fd: i32)
    requires
        0 <= at,
        at + 16 <= insns.len() <= u64::MAX,
        insns[at] == BPF_LD_IMM64,
    ensures
        ({
            let p = patched(insns, at, fd)->0;
            &&& patched(insns, at, fd) is Some
            &&& p[at + 4] + p[at + 5] * 0x100 + p[at + 6] * 0x1_0000 + p[at + 7] * 0x100_0000 == fd as u32
            &&& p[at] == BPF_LD_IMM64
            &&& p[at + 1] & 0xf0 == 0x10
            &&& p[at + 1] & 0x0f == insns[at + 1] & 0x0f
        }),
{
    let b: u8 = insns[at + 1];
    assert(((b & 0x0f) | 0x10) & 0xf0 == 0x10) by (bit_vector);
    assert(((b & 0x0f) | 0x10) & 0x0f == b & 0x0f) by (bit_vector);
}

// ---- What relocation is for ----

/// Bytes as a number, the first byte lowest.
pub open spec fn little_endian(b: Seq<u8>) -> nat
    decreases b.len(),
{
    if b.len() == 0 {
        0
    } else {
        b[0] as nat + 256 * little_endian(b.drop_first())
    }
}

/// Section `k` is a relocation table for section `shndx` that has an entry `i`.
pub open spec fn has_entry(o: ObjectView, shndx: int, k: int, i: int) -> bool {
    &&& 0 <= k < o.sections.len()
    &&& o.sections[k].sh_type == 9
    &&& o.sections[k].sh_info == shndx
    &&& 0 <= i
    &&& 16 * i + 16 <= o.sections[k].sh_size
}

/// The sixteen bytes of entry `i` of the table in section `k`: where it points, its type, its
/// symbol.
pub open spec fn entry(data: Seq<u8>, o: ObjectView, k: int, i: int) -> Seq<u8> {
    data.subrange(o.sections[k].sh_offset + 16 * i, o.sections[k].sh_offset + 16 * i + 16)
}

/// Where an entry points.
pub open spec fn points_to(e: Seq<u8>) -> nat {
    little_endian(e.take(8))
}

/// The symbol of an entry is called `name` and lies in the first section called `.maps`.
pub open spec fn names_symbol(o: ObjectView, e: Seq<u8>, name: Seq<char>) -> bool {
    let sym = little_endian(e.subrange(12, 16)) as int;
    &&& sym < o.symbols.len()
    &&& o.symbols[sym].name == Some(name)
    &&& 0 <= o.symbols[sym].shndx < o.sections.len()
    &&& o.sections[o.symbols[sym].shndx as int].name == Some(".maps"@)
    &&& forall|j: int| 0 <= j < o.symbols[sym].shndx ==> (#[trigger] o.sections[j]).name != Some(".maps"@)
}

/// An entry stands for map `m`.
pub open spec fn stands_for(o: ObjectView, e: Seq<u8>, m: int) -> bool {
    ||| m == 0 && names_symbol(o, e, "stats"@)
    ||| m == 1 && names_symbol(o, e, "sched_start"@)
    ||| m == 2 && names_symbol(o, e, "pid_gen"@)
    ||| m == 3 && names_symbol(o, e, "latency"@)
}

/// No other entry for a map comes near the sixteen bytes that entry `i` of table `k` points to,
/// unless it puts the same descriptor into the same place.
pub open spec fn is_alone(data: Seq<u8>, o: ObjectView, fds: Seq<i32>, shndx: int, k: int, i: int, fd: i32) -> bool {
    forall|k2: int, i2: int, m2: int|
        #![trigger has_entry(o, shndx, k2, i2), stands_for(o, entry(data, o, k2, i2), m2)]
        has_entry(o, shndx, k2, i2) && stands_for(o, entry(data, o, k2, i2), m2) ==> {
            let off = points_to(entry(data, o, k, i));
            let off2 = points_to(entry(data, o, k2, i2));
            off2 + 16 <= off || off + 16 <= off2 || (off2 == off && fds[m2] == fd)
        }
}

/// Every wide load that an entry for a map points to gets the descriptor of that map: in its
/// immediate, lowest byte first, and marked as such in the upper half of its second byte. Nothing
/// else of the load changes, and an instruction of another kind stays as it is.
pub proof fn every_map_load_gets_its_descriptor(
    data: Seq<u8>,
    o: ObjectView,
    fds: Seq<i32>,
    shndx: int,
    k: int,
    i: int,
    m: int,
)
    requires
        0 <= shndx < o.sections.len(),
        relocated(data, o, fds, shndx) is Some,
        has_entry(o, shndx, k, i),
        stands_for(o, entry(data, o, k, i), m),
        points_to(entry(data, o, k, i)) + 16 <= o.sections[shndx].sh_size,
        is_alone(data, o, fds, shndx, k, i, fds[m]),
    ensures
        ({
            let off = points_to(entry(data, o, k, i)) as int;
            let was = data.subrange(
                o.sections[shndx].sh_offset + off,
                o.sections[shndx].sh_offset + off + 16,
            );
            let now = relocated(data, o, fds, shndx)->0.subrange(off, off + 16);
            if was[0] == 0x18 {
                &&& little_endian(now.subrange(4, 8)) == fds[m] as u32
                &&& now[1] / 16 == 1
                &&& now[1] % 16 == was[1] % 16
                &&& now[0] == 0x18
                &&& now.subrange(2, 4) == was.subrange(2, 4)
                &&& now.subrange(8, 16) == was.subrange(8, 16)
            } else {
                now == was
            }
        }),
{
    let insns = section_bytes(data, o.sections[shndx])->0;
    let off = points_to(entry(data, o, k, i)) as int;
    let fd = fds[m];
    lemma_below_state(data, o, fds, shndx, k, i, m, insns, o.sections.len() as int);
    let p = relocated(data, o, fds, shndx)->0;
    let was = data.subrange(o.sections[shndx].sh_offset + off, o.sections[shndx].sh_offset + off + 16);
    let now = p.subrange(off, off + 16);
    assert forall|q: int| 0 <= q < 16 implies was[q] == #[trigger] insns[off + q] by {}
    assert(was[0] == insns[off + 0] && was[1] == insns[off + 1]);
    if was[0] == 0x18 {
        let b: u8 = insns[off + 1];
        assert(((b & 0x0f) | 0x10) / 16 == 1) by (bit_vector);
        assert(((b & 0x0f) | 0x10) % 16 == b % 16) by (bit_vector);
        lemma_le4(now.subrange(4, 8));
        assert(now.subrange(2, 4) =~= was.subrange(2, 4));
        assert(now.subrange(8, 16) =~= was.subrange(8, 16));
    } else {
        assert(now =~= was);
    }
}

proof fn lemma_le4(b: Seq<u8>)
    requires
        b.len() == 4,
    ensures
        little_endian(b) == b[0] + b[1] * 0x100 + b[2] * 0x1_0000 + b[3] * 0x100_0000,
{
    reveal_with_fuel(little_endian, 5);
}

proof fn lemma_le8(b: Seq<u8>)
    requires
        b.len() == 8,
    ensures
        little_endian(b) == le64(b, 0),
{
    reveal_with_fuel(little_endian, 9);
}

/// An entry read by its bytes is the entry that the table holds.
proof fn lemma_entry(data: Seq<u8>, o: ObjectView, k: int, i: int)
    requires
        0 <= k < o.sections.len(),
        section_bytes(data, o.sections[k]) is Some,
        0 <= i,
        16 * i + 16 <= o.sections[k].sh_size,
    ensures
        ({
            let rel = section_bytes(data, o.sections[k])->0;
            let e = entry(data, o, k, i);
            &&& rel_offset(rel, i) == points_to(e)
            &&& rel_symbol(rel, i) == little_endian(e.subrange(12, 16))
        }),
{
    let rel = section_bytes(data, o.sections[k])->0;
    let e = entry(data, o, k, i);
    let lo = e.take(8);
    let hi = e.subrange(12, 16);
    lemma_le8(lo);
    lemma_le4(hi);
    assert forall|q: int| 0 <= q < 16 implies e[q] == #[trigger] rel[i * 16 + q] by {}
    assert(lo[0] == rel[i * 16 + 0]);
    assert(e[8] == rel[i * 16 + 8] && e[9] == rel[i * 16 + 9] && e[10] == rel[i * 16 + 10] && e[11] == rel[i * 16 + 11]);
    assert(e[12] == rel[i * 16 + 12] && e[13] == rel[i * 16 + 13] && e[14] == rel[i * 16 + 14] && e[15] == rel[i * 16
        + 15]);
    let low = rel[i * 16 + 8] + rel[i * 16 + 9] * 0x100 + rel[i * 16 + 10] * 0x1_0000 + rel[i * 16 + 11] * 0x100_0000;
    assert(le64(rel, i * 16 + 8) == low + little_endian(hi) * 0x1_0000_0000);
    assert(0 <= low < 0x1_0000_0000);
}

/// A symbol declares a map where it names it.
proof fn lemma_stands_for(o: ObjectView, e: Seq<u8>, m: int)
    ensures
        stands_for(o, e, m) <==> symbol_map(o, little_endian(e.subrange(12, 16)) as int) == Some(m),
{
    reveal_strlit("stats");
    reveal_strlit("sched_start");
    reveal_strlit("pid_gen");
    reveal_strlit("latency");
    reveal_strlit("");
    assert("pid_gen"@[0] != "latency"@[0]);
    assert("stats"@.len() == 5 && "sched_start"@.len() == 11 && "pid_gen"@.len() == 7 && "latency"@.len() == 7 && ""@.len()
        == 0);
    let names = map_names();
    assert(names[0] == "stats"@ && names[1] == "sched_start"@ && names[2] == "pid_gen"@ && names[3] == "latency"@);
    lemma_section_from(o, ".maps"@, 0);
    let sym = little_endian(e.subrange(12, 16)) as int;
    if 0 <= sym < o.symbols.len() {
        let at = o.symbols[sym].shndx as int;
        assert(declares_map(o, sym) <==> {
            &&& 0 <= at < o.sections.len()
            &&& o.sections[at].name == Some(".maps"@)
            &&& forall|j: int| 0 <= j < at ==> (#[trigger] o.sections[j]).name != Some(".maps"@)
        }) by {
            match maps_section(o) {
                Some(first) => {
                    if first < at {
                        assert(o.sections[first].name == Some(".maps"@));
                    }
                },
                None => {},
            }
        }
    }
}

proof fn lemma_section_from(o: ObjectView, name: Seq<char>, from: nat)
    ensures
        match section_from(o, name, from) {
            Some(s) => {
                &&& from <= s < o.sections.len()
                &&& o.sections[s].name == Some(name)
                &&& forall|j: int| from <= j < s ==> (#[trigger] o.sections[j]).name != Some(name)
            },
            None => forall|j: int| from <= j < o.sections.len() ==> (#[trigger] o.sections[j]).name != Some(name),
        },
    decreases o.sections.len() - from,
{
    if from < o.sections.len() && o.sections[from as int].name != Some(name) {
        lemma_section_from(o, name, from + 1);
    }
}

/// `now` is `insns` but for the kind and the immediate of the load at `off`.
spec fn differs_in_load(insns: Seq<u8>, now: Seq<u8>, off: int) -> bool {
    &&& now.len() == insns.len()
    &&& forall|q: int|
        off <= q < off + 16 && q != off + 1 && !(off + 4 <= q < off + 8) ==> #[trigger] now[q] == insns[q]
}

/// The load at `off` holds `fd`.
spec fn holds_fd(insns: Seq<u8>, now: Seq<u8>, off: int, fd: i32) -> bool {
    &&& now[off + 1] == (insns[off + 1] & 0x0f) | 0x10
    &&& now[off + 4] == fd_bytes(fd)[0]
    &&& now[off + 5] == fd_bytes(fd)[1]
    &&& now[off + 6] == fd_bytes(fd)[2]
    &&& now[off + 7] == fd_bytes(fd)[3]
}

/// The load at `off` is as it was.
spec fn is_untouched(insns: Seq<u8>, now: Seq<u8>, off: int) -> bool {
    forall|q: int| off <= q < off + 16 ==> #[trigger] now[q] == insns[q]
}

/// The load at `off` holds `fd`, or is as it was where that is still to come.
spec fn in_state(insns: Seq<u8>, now: Seq<u8>, off: int, fd: i32, done: bool) -> bool {
    &&& differs_in_load(insns, now, off)
    &&& if insns[off] == 0x18 {
        holds_fd(insns, now, off, fd) || (!done && is_untouched(insns, now, off))
    } else {
        is_untouched(insns, now, off)
    }
}

proof fn lemma_patch_state(insns: Seq<u8>, now: Seq<u8>, off: int, fd: i32, done: bool, at: int, other: i32)
    requires
        0 <= off,
        off + 16 <= insns.len(),
        0 <= at,
        in_state(insns, now, off, fd, done),
        patched(now, at, other) is Some,
        at + 16 <= off || off + 16 <= at || (at == off && other == fd),
    ensures
        in_state(insns, patched(now, at, other)->0, off, fd, done || at == off),
{
    let b: u8 = insns[off + 1];
    assert((((b & 0x0f) | 0x10) & 0x0f) | 0x10 == (b & 0x0f) | 0x10) by (bit_vector);
    let next = patched(now, at, other)->0;
    if at != off {
        assert forall|q: int| off <= q < off + 16 implies #[trigger] next[q] == now[q] by {}
        assert(next[off + 1] == now[off + 1] && next[off + 4] == now[off + 4] && next[off + 5] == now[off + 5]);
        assert(next[off + 6] == now[off + 6] && next[off + 7] == now[off + 7]);
    } else {
        assert(now[off] == insns[off]);
    }
}

proof fn lemma_entries_state(
    data: Seq<u8>,
    o: ObjectView,
    fds: Seq<i32>,
    shndx: int,
    k: int,
    i: int,
    m: int,
    insns: Seq<u8>,
    start: Seq<u8>,
    k2: int,
    n: int,
    done: bool,
)
    requires
        has_entry(o, shndx, k, i),
        stands_for(o, entry(data, o, k, i), m),
        points_to(entry(data, o, k, i)) + 16 <= insns.len(),
        is_alone(data, o, fds, shndx, k, i, fds[m]),
        0 <= k2 < o.sections.len(),
        relocates(o, k2, shndx),
        section_bytes(data, o.sections[k2]) is Some,
        0 <= n <= o.sections[k2].sh_size as int / 16,
        in_state(insns, start, points_to(entry(data, o, k, i)) as int, fds[m], done),
        relocated_entries(start, section_bytes(data, o.sections[k2])->0, o, fds, n) is Some,
    ensures
        in_state(
            insns,
            relocated_entries(start, section_bytes(data, o.sections[k2])->0, o, fds, n)->0,
            points_to(entry(data, o, k, i)) as int,
            fds[m],
            done || (k2 == k && i < n),
        ),
    decreases n,
{
    if n > 0 {
        lemma_entries_state(data, o, fds, shndx, k, i, m, insns, start, k2, n - 1, done);
        let rel = section_bytes(data, o.sections[k2])->0;
        let off = points_to(entry(data, o, k, i)) as int;
        let now = relocated_entries(start, rel, o, fds, n - 1)->0;
        let e = entry(data, o, k2, n - 1);
        lemma_entry(data, o, k2, n - 1);
        assert(has_entry(o, shndx, k2, n - 1));
        match symbol_map(o, rel_symbol(rel, n - 1)) {
            Some(m2) => {
                lemma_stands_for(o, e, m2);
                lemma_patch_state(
                    insns,
                    now,
                    off,
                    fds[m],
                    done || (k2 == k && i < n - 1),
                    rel_offset(rel, n - 1),
                    fds[m2],
                );
            },
            None => {
                lemma_stands_for(o, e, m);
            },
        }
    }
}

proof fn lemma_below_state(
    data: Seq<u8>,
    o: ObjectView,
    fds: Seq<i32>,
    shndx: int,
    k: int,
    i: int,
    m: int,
    insns: Seq<u8>,
    n: int,
)
    requires
        0 <= shndx < o.sections.len(),
        has_entry(o, shndx, k, i),
        stands_for(o, entry(data, o, k, i), m),
        points_to(entry(data, o, k, i)) + 16 <= insns.len(),
        is_alone(data, o, fds, shndx, k, i, fds[m]),
        0 <= n <= o.sections.len(),
        relocated_below(insns, data, o, fds, shndx, n) is Some,
    ensures
        in_state(
            insns,
            relocated_below(insns, data, o, fds, shndx, n)->0,
            points_to(entry(data, o, k, i)) as int,
            fds[m],
            k < n,
        ),
    decreases n,
{
    if n > 0 {
        lemma_below_state(data, o, fds, shndx, k, i, m, insns, n - 1);
        let now = relocated_below(insns, data, o, fds, shndx, n - 1)->0;
        if relocates(o, n - 1, shndx) {
            let rel = section_bytes(data, o.sections[n - 1])->0;
            lemma_entries_state(
                data,
                o,
                fds,
                shndx,
                k,
                i,
                m,
                insns,
                now,
                n - 1,
                rel.len() as int / 16,
                k < n - 1,
            );
        }
    }
}

/// Relocation changes no byte but the second and the immediate of sixteen bytes of the program
/// that some entry for a map points to.
pub proof fn other_bytes_stay(data: Seq<u8>, o: ObjectView, fds: Seq<i32>, shndx: int, p: int)
    requires
        0 <= shndx < o.sections.len(),
        relocated(data, o, fds, shndx) is Some,
        0 <= p < o.sections[shndx].sh_size,
        forall|k: int, i: int, m: int|
            #![trigger has_entry(o, shndx, k, i), stands_for(o, entry(data, o, k, i), m)]
            has_entry(o, shndx, k, i) && stands_for(o, entry(data, o, k, i), m) ==> {
                let off = points_to(entry(data, o, k, i));
                off + 16 <= o.sections[shndx].sh_size ==> p != off + 1 && !(off + 4 <= p < off + 8)
            },
    ensures
        relocated(data, o, fds, shndx)->0[p] == data[o.sections[shndx].sh_offset + p],
        relocated(data, o, fds, shndx)->0.len() == o.sections[shndx].sh_size,
{
    relocation_is_local(data, o, fds, shndx);
    assert forall|k: int, i: int| !(#[trigger] touches(data, o, shndx, k, i, p)) by {
        if touches(data, o, shndx, k, i, p) {
            let rel = section_bytes(data, o.sections[k])->0;
            lemma_entry(data, o, k, i);
            assert(has_entry(o, shndx, k, i));
            lemma_stands_for(o, entry(data, o, k, i), symbol_map(o, rel_symbol(rel, i))->0);
        }
    }
    assert(!is_touched(data, o, shndx, p));
    assert(section_bytes(data, o.sections[shndx])->0[p] == data[o.sections[shndx].sh_offset + p]);
}

/// A program is relocated where it and its tables lie in the file, and no entry for a map points
/// so high that its load would end behind the last 64-bit number. Else it is not.
pub proof fn what_lies_in_the_file_is_relocated(data: Seq<u8>, o: ObjectView, fds: Seq<i32>, shndx: int)
    requires
        0 <= shndx < o.sections.len(),
    ensures
        relocated(data, o, fds, shndx) is Some <==> {
            &&& o.sections[shndx].sh_offset + o.sections[shndx].sh_size <= data.len()
            &&& forall|k: int|
                0 <= k < o.sections.len() && (#[trigger] o.sections[k]).sh_type == 9 && o.sections[k].sh_info == shndx
                    ==> o.sections[k].sh_offset + o.sections[k].sh_size <= data.len()
            &&& forall|k: int, i: int, m: int|
                #![trigger has_entry(o, shndx, k, i), stands_for(o, entry(data, o, k, i), m)]
                has_entry(o, shndx, k, i) && stands_for(o, entry(data, o, k, i), m) ==> points_to(
                    entry(data, o, k, i),
                ) + 16 <= u64::MAX
        },
{
    if o.sections[shndx].sh_offset + o.sections[shndx].sh_size <= data.len() {
        let insns = section_bytes(data, o.sections[shndx])->0;
        let n = o.sections.len() as int;
        lemma_below_some(data, o, fds, shndx, insns, n);
        if tables_are_good(data, o, shndx, n) {
            assert forall|k: int|
                0 <= k < o.sections.len() && (#[trigger] o.sections[k]).sh_type == 9 && o.sections[k].sh_info
                    == shndx implies o.sections[k].sh_offset + o.sections[k].sh_size <= data.len() by {
                assert(table_is_good(data, o, shndx, k));
            }
            assert forall|k: int, i: int, m: int|
                #![trigger has_entry(o, shndx, k, i), stands_for(o, entry(data, o, k, i), m)]
                has_entry(o, shndx, k, i) && stands_for(o, entry(data, o, k, i), m) implies points_to(
                entry(data, o, k, i),
            ) + 16 <= u64::MAX by {
                assert(table_is_good(data, o, shndx, k));
            }
        }
    }
}

/// Table `k` lies in the file, and every entry of it for a map ends within 64 bits.
spec fn table_is_good(data: Seq<u8>, o: ObjectView, shndx: int, k: int) -> bool {
    &&& o.sections[k].sh_offset + o.sections[k].sh_size <= data.len()
    &&& entries_are_good(data, o, shndx, k, o.sections[k].sh_size as int / 16)
}

spec fn entries_are_good(data: Seq<u8>, o: ObjectView, shndx: int, k: int, n: int) -> bool {
    forall|i: int, m: int|
        #![trigger has_entry(o, shndx, k, i), stands_for(o, entry(data, o, k, i), m)]
        i < n && has_entry(o, shndx, k, i) && stands_for(o, entry(data, o, k, i), m) ==> points_to(
            entry(data, o, k, i),
        ) + 16 <= u64::MAX
}

proof fn lemma_entries_some(
    data: Seq<u8>,
    o: ObjectView,
    fds: Seq<i32>,
    shndx: int,
    start: Seq<u8>,
    k: int,
    n: int,
)
    requires
        0 <= k < o.sections.len(),
        relocates(o, k, shndx),
        section_bytes(data, o.sections[k]) is Some,
        0 <= n <= o.sections[k].sh_size as int / 16,
    ensures
        relocated_entries(start, section_bytes(data, o.sections[k])->0, o, fds, n) is Some <==> entries_are_good(
            data,
            o,
            shndx,
            k,
            n,
        ),
    decreases n,
{
    if n > 0 {
        lemma_entries_some(data, o, fds, shndx, start, k, n - 1);
        let rel = section_bytes(data, o.sections[k])->0;
        let e = entry(data, o, k, n - 1);
        lemma_entry(data, o, k, n - 1);
        assert(has_entry(o, shndx, k, n - 1));
        match symbol_map(o, rel_symbol(rel, n - 1)) {
            Some(m2) => {
                lemma_stands_for(o, e, m2);
                assert forall|m: int| stands_for(o, e, m) implies m == m2 by {
                    lemma_stands_for(o, e, m);
                }
            },
            None => {
                assert forall|m: int| !stands_for(o, e, m) by {
                    lemma_stands_for(o, e, m);
                }
            },
        }
        assert(entries_are_good(data, o, shndx, k, n) ==> entries_are_good(data, o, shndx, k, n - 1));
    }
}

/// Every table below `n` for section `shndx` is good.
spec fn tables_are_good(data: Seq<u8>, o: ObjectView, shndx: int, n: int) -> bool {
    forall|k: int| 0 <= k < n && relocates(o, k, shndx) ==> #[trigger] table_is_good(data, o, shndx, k)
}

proof fn lemma_below_some(data: Seq<u8>, o: ObjectView, fds: Seq<i32>, shndx: int, insns: Seq<u8>, n: int)
    requires
        0 <= n <= o.sections.len(),
    ensures
        relocated_below(insns, data, o, fds, shndx, n) is Some <==> tables_are_good(data, o, shndx, n),
    decreases n,
{
    if n > 0 {
        lemma_below_some(data, o, fds, shndx, insns, n - 1);
        let before = relocated_below(insns, data, o, fds, shndx, n - 1);
        assert(tables_are_good(data, o, shndx, n) <==> tables_are_good(data, o, shndx, n - 1) && (relocates(
            o,
            n - 1,
            shndx,
        ) ==> table_is_good(data, o, shndx, n - 1)));
        if relocates(o, n - 1, shndx) && before is Some && section_bytes(data, o.sections[n - 1]) is Some {
            lemma_entries_some(data, o, fds, shndx, before->0, n - 1, o.sections[n - 1].sh_size as int / 16);
        }
    }
}

// ---- What a probe must have ----

/// Section `at` is the first that is called `.maps`.
pub open spec fn is_maps_section(o: ObjectView, at: int) -> bool {
    &&& 0 <= at < o.sections.len()
    &&& o.sections[at].name == Some(".maps"@)
    &&& forall|j: int| 0 <= j < at ==> (#[trigger] o.sections[j]).name != Some(".maps"@)
}

/// A symbol of the section of map declarations is unknown where it has a name that is none of the
/// four, and a map is declared where such a symbol has its name.
pub proof fn four_maps_are_known(o: ObjectView, i: int)
    requires
        0 <= i < o.symbols.len(),
    ensures
        is_unknown_map(o, i) <==> {
            &&& is_maps_section(o, o.symbols[i].shndx as int)
            &&& o.symbols[i].name matches Some(n) && n.len() > 0 && n != "stats"@ && n != "sched_start"@ && n
                != "pid_gen"@ && n != "latency"@
        },
        symbol_map(o, i) is Some <==> {
            &&& is_maps_section(o, o.symbols[i].shndx as int)
            &&& o.symbols[i].name matches Some(n) && (n == "stats"@ || n == "sched_start"@ || n == "pid_gen"@ || n
                == "latency"@)
        },
        symbol_map(o, i) == Some(0int) ==> o.symbols[i].name == Some("stats"@),
        symbol_map(o, i) == Some(1int) ==> o.symbols[i].name == Some("sched_start"@),
        symbol_map(o, i) == Some(2int) ==> o.symbols[i].name == Some("pid_gen"@),
        symbol_map(o, i) == Some(3int) ==> o.symbols[i].name == Some("latency"@),
{
    reveal_strlit("stats");
    reveal_strlit("sched_start");
    reveal_strlit("pid_gen");
    reveal_strlit("latency");
    reveal_strlit("");
    let names = map_names();
    assert(names[0] == "stats"@ && names[1] == "sched_start"@ && names[2] == "pid_gen"@ && names[3] == "latency"@);
    assert("stats"@.len() == 5 && "sched_start"@.len() == 11 && "pid_gen"@.len() == 7 && "latency"@.len() == 7 && ""@.len()
        == 0);
    lemma_section_from(o, ".maps"@, 0);
    let at = o.symbols[i].shndx as int;
    assert(declares_map(o, i) <==> is_maps_section(o, at)) by {
        match maps_section(o) {
            Some(first) => {
                if first < at {
                    assert(o.sections[first].name == Some(".maps"@));
                }
            },
            None => {},
        }
    }
}

/// The programs are the sections that hold bytes under a name that begins with `tracepoint/`: all
/// of them and no others, in the order of the file.
pub proof fn programs_are_the_tracepoint_sections(o: ObjectView, i: int)
    requires
        0 <= i < o.sections.len(),
    ensures
        programs(o).contains(i) <==> {
            &&& o.sections[i].sh_type == 1
            &&& o.sections[i].sh_size > 0
            &&& o.sections[i].name matches Some(n) && n.len() >= 11 && n.take(11) == "tracepoint/"@
        },
        forall|a: int, b: int| 0 <= a < b < programs(o).len() ==> #[trigger] programs(o)[a] < #[trigger] programs(o)[b],
        forall|a: int| 0 <= a < programs(o).len() ==> 0 <= #[trigger] programs(o)[a] < o.sections.len(),
{
    reveal_strlit("tracepoint/");
    lemma_programs_ascend(o, o.sections.len() as int);
    if is_program(o.sections[i]) {
        lemma_programs_complete(o, o.sections.len() as int, i);
    }
    if let Some(n) = o.sections[i].name {
        if n.len() >= 11 {
            assert(n.take(11) =~= n.subrange(0, 11));
        }
    }
}

proof fn lemma_programs_ascend(o: ObjectView, n: int)
    requires
        0 <= n <= o.sections.len(),
    ensures
        forall|a: int, b: int|
            0 <= a < b < programs_below(o, n).len() ==> #[trigger] programs_below(o, n)[a]
                < #[trigger] programs_below(o, n)[b],
        forall|a: int|
            0 <= a < programs_below(o, n).len() ==> 0 <= #[trigger] programs_below(o, n)[a] < n && is_program(
                o.sections[programs_below(o, n)[a]],
            ),
    decreases n,
{
    if n > 0 {
        lemma_programs_ascend(o, n - 1);
        let rest = programs_below(o, n - 1);
        let all = programs_below(o, n);
        assert forall|a: int| 0 <= a < all.len() implies 0 <= #[trigger] all[a] < n && is_program(o.sections[all[a]]) by {
            if a < rest.len() {
                assert(all[a] == rest[a]);
            }
        }
        assert forall|a: int, b: int| 0 <= a < b < all.len() implies #[trigger] all[a] < #[trigger] all[b] by {
            assert(all[a] == rest[a]);
            if b < rest.len() {
                assert(all[b] == rest[b]);
            }
        }
    }
}

/// A required program is there where some section of that name holds bytes.
pub proof fn a_program_is_found_by_its_name(o: ObjectView, name: Seq<char>)
    requires
        name.len() >= 11,
        name.take(11) == "tracepoint/"@,
    ensures
        has_program(o, name) <==> exists|i: int|
            0 <= i < o.sections.len() && (#[trigger] o.sections[i]).name == Some(name) && o.sections[i].sh_type == 1
                && o.sections[i].sh_size > 0,
{
    reveal_strlit("tracepoint/");
    assert(name.take(11) =~= name.subrange(0, 11));
}

/// The tracepoint of a section stands behind its first two slashes: the category between them,
/// the event behind them. Without two slashes there is none.
pub proof fn a_section_name_gives_its_tracepoint(kind: Seq<char>, cat: Seq<char>, event: Seq<char>)
    requires
        !kind.contains('/'),
        !cat.contains('/'),
    ensures
        tracepoint_of(kind + seq!['/'] + cat + seq!['/'] + event) == Some((cat, event)),
        tracepoint_of(kind) is None,
        tracepoint_of(kind + seq!['/'] + cat) is None,
{
    let name = kind + seq!['/'] + cat + seq!['/'] + event;
    let a = kind.len();
    text::lemma_next_separator(name, '/', 0);
    assert(name[a as int] == '/');
    assert forall|i: int| 0 <= i < a implies name[i] != '/' by {
        assert(name[i] == kind[i]);
        assert(kind.contains(kind[i]));
    }
    assert(text::next_separator(name, '/', 0) == a);
    text::lemma_next_separator(name, '/', a + 1);
    let b = a + 1 + cat.len();
    assert(name[b as int] == '/');
    assert forall|i: int| a + 1 <= i < b implies name[i] != '/' by {
        assert(name[i] == cat[i - a - 1]);
        assert(cat.contains(cat[i - a - 1]));
    }
    assert(text::next_separator(name, '/', a + 1) == b);
    assert(name.subrange(a as int + 1, b as int) =~= cat);
    assert(name.subrange(b as int + 1, name.len() as int) =~= event);
    text::lemma_next_separator(kind, '/', 0);
    let k = text::next_separator(kind, '/', 0);
    if k < kind.len() {
        assert(kind.contains(kind[k as int]));
    }
    let two = kind + seq!['/'] + cat;
    text::lemma_next_separator(two, '/', 0);
    assert(two[a as int] == '/');
    assert forall|i: int| 0 <= i < a implies two[i] != '/' by {
        assert(two[i] == kind[i]);
        assert(kind.contains(kind[i]));
    }
    assert(text::next_separator(two, '/', 0) == a);
    text::lemma_next_separator(two, '/', a + 1);
    let m = text::next_separator(two, '/', a + 1);
    if m < two.len() {
        assert(two[m as int] == cat[m - a - 1]);
        assert(cat.contains(cat[m - a - 1]));
    }
}

} // verus!
