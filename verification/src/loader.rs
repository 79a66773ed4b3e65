//! Loading the probe: which system call comes next, and what is closed when one fails.

use vstd::prelude::*;
use crate::object;
use crate::object::{ElfObject, Rejection};

verus! {

/// Where the loader stands. Each phase waits for the outcome of one system call.
#[derive(Clone, Copy, PartialEq, Eq, Structural, Debug)]
pub enum Phase {
    /// The next map is being created.
    CreateMap,
    /// The next program is being loaded.
    LoadProgram,
    /// The tracepoint of the program loaded last is being looked up.
    FindTracepoint,
    /// A perf event for this tracepoint is being opened on the next CPU.
    OpenPerf(u64),
    /// The program is being attached to the perf event of the CPU with this index.
    Attach(usize),
    /// The perf event of the CPU with this index is being enabled.
    Enable(usize),
    /// The probe runs, or loading it was given up.
    Over,
}

/// How attaching a program went.
#[derive(Clone, Copy, PartialEq, Eq, Structural, Debug)]
pub enum Attachment {
    Done,
    /// The tracepoint holds the program already.
    AlreadyThere,
    Failed,
}

/// The outcome of the system call that an action asked for.
#[derive(Clone, Copy, PartialEq, Eq, Structural, Debug)]
pub enum Event {
    /// A map, a program or a perf event was opened, or was not.
    Opened(Option<i32>),
    /// The identifier of the tracepoint was found, or was not.
    Tracepoint(Option<u64>),
    Attached(Attachment),
    Enabled(bool),
}

/// Why loading was given up.
#[derive(Clone, Copy, PartialEq, Eq, Structural, Debug)]
pub enum Failure {
    /// The map with this index could not be created.
    MapRefused(usize),
    /// The object is no probe.
    Rejected(Rejection),
    /// No CPU is online.
    NoCpus,
    /// The program section with this index, or a relocation of it, reaches out of the file.
    Malformed(usize),
    /// The kernel refused the program in the section with this index.
    ProgramRefused(usize),
    /// The name of the section with this index gives no tracepoint.
    NamelessTracepoint(usize),
    /// The tracepoint of the section with this index does not exist.
    NoTracepoint(usize),
    /// No perf event could be opened for this section on this CPU.
    PerfRefused(usize, i32),
    /// The program of this section could not be attached on this CPU.
    AttachRefused(usize, i32),
    /// The perf event for this section could not be enabled on this CPU.
    EnableRefused(usize, i32),
}

/// What has to be done next.
pub enum Action {
    /// Create the map with this index.
    CreateMap(usize),
    /// Load the instructions of the section with this index.
    LoadProgram(usize, Vec<u8>),
    /// Look up the identifier of a tracepoint, given its category and its name.
    FindTracepoint(String, String),
    /// Open a perf event for a tracepoint on a CPU.
    OpenPerf(u64, i32),
    /// Attach to a perf event a program.
    Attach(i32, i32),
    /// Enable a perf event.
    Enable(i32),
    /// Nothing: the probe runs.
    Finish,
    /// Close these descriptors, in order, and give up.
    Abort(Failure, Vec<i32>),
}

#[verifier::ext_equal]
pub enum ActionView {
    CreateMap(int),
    LoadProgram(int, Seq<u8>),
    FindTracepoint(Seq<char>, Seq<char>),
    OpenPerf(u64, i32),
    Attach(i32, i32),
    Enable(i32),
    Finish,
    Abort(Failure, Seq<i32>),
}

impl View for Action {
    type V = ActionView;

    open spec fn view(&self) -> ActionView {
        match *self {
            Action::CreateMap(i) => ActionView::CreateMap(i as int),
            Action::LoadProgram(i, insns) => ActionView::LoadProgram(i as int, insns@),
            Action::FindTracepoint(cat, name) => ActionView::FindTracepoint(cat@, name@),
            Action::OpenPerf(id, cpu) => ActionView::OpenPerf(id, cpu),
            Action::Attach(perf, prog) => ActionView::Attach(perf, prog),
            Action::Enable(perf) => ActionView::Enable(perf),
            Action::Finish => ActionView::Finish,
            Action::Abort(why, fds) => ActionView::Abort(why, fds@),
        }
    }
}

/// A probe on its way into the kernel.
pub struct BpfLoader {
    pub object: ElfObject,
    pub data: Vec<u8>,
    pub cpus: Vec<i32>,
    pub maps: Vec<i32>,
    pub prog_fds: Vec<i32>,
    pub perf_fds: Vec<i32>,
    pub sec_perf: Vec<i32>,
    pub attached: bool,
    pub phase: Phase,
    pub bound: Vec<Option<usize>>,
    pub progs: Vec<usize>,
}

#[verifier::ext_equal]
pub struct LoaderView {
    pub object: object::ObjectView,
    pub data: Seq<u8>,
    pub cpus: Seq<i32>,
    /// The maps created so far.
    pub maps: Seq<i32>,
    /// The programs loaded so far.
    pub prog_fds: Seq<i32>,
    /// The perf events of the programs that have one on every CPU.
    pub perf_fds: Seq<i32>,
    /// The perf events of the program loaded last.
    pub sec_perf: Seq<i32>,
    /// The program loaded last is attached on some CPU.
    pub attached: bool,
    pub phase: Phase,
}

impl View for BpfLoader {
    type V = LoaderView;

    open spec fn view(&self) -> LoaderView {
        LoaderView {
            object: self.object@,
            data: self.data@,
            cpus: self.cpus@,
            maps: self.maps@,
            prog_fds: self.prog_fds@,
            perf_fds: self.perf_fds@,
            sec_perf: self.sec_perf@,
            attached: self.attached,
            phase: self.phase,
        }
    }
}

/// The event is an outcome of what the phase waits for.
pub open spec fn awaits(phase: Phase, event: Event) -> bool {
    match phase {
        Phase::CreateMap | Phase::LoadProgram | Phase::OpenPerf(_) => event is Opened,
        Phase::FindTracepoint => event is Tracepoint,
        Phase::Attach(_) => event is Attached,
        Phase::Enable(_) => event is Enabled,
        Phase::Over => false,
    }
}

/// The object passes every test that comes before the first program.
pub open spec fn accepted(o: object::ObjectView) -> bool {
    &&& forall|i: int| 0 <= i < o.symbols.len() ==> !object::is_unknown_map(o, i)
    &&& forall|m: int| 0 <= m < 4 ==> object::is_declared(o, m)
    &&& forall|i: int| 0 <= i < 4 ==> object::has_program(o, #[trigger] object::required_sections()[i])
}

/// The reason for which the object is no probe.
pub open spec fn is_rejection(o: object::ObjectView, why: Rejection) -> bool {
    let no_unknown = forall|i: int| 0 <= i < o.symbols.len() ==> !object::is_unknown_map(o, i);
    let all_declared = forall|m: int| 0 <= m < 4 ==> object::is_declared(o, m);
    match why {
        Rejection::UnknownMap(k) => k < o.symbols.len() && object::is_unknown_map(o, k as int) && forall|i: int|
            0 <= i < k ==> !object::is_unknown_map(o, i),
        Rejection::MissingMap(m) => m < 4 && no_unknown && !object::is_declared(o, m as int) && forall|j: int|
            0 <= j < m ==> object::is_declared(o, j),
        Rejection::MissingSection(k) => k < 4 && no_unknown && all_declared && !object::has_program(
            o,
            object::required_sections()[k as int],
        ) && forall|i: int| 0 <= i < k ==> object::has_program(o, #[trigger] object::required_sections()[i]),
    }
}

/// The descriptors that giving up closes, in order: maps, programs, perf events.
pub open spec fn all_open(v: LoaderView) -> Seq<i32> {
    v.maps + v.prog_fds + v.perf_fds
}

pub open spec fn abort(v: LoaderView, why: Failure, close: Seq<i32>) -> (LoaderView, ActionView) {
    (LoaderView { phase: Phase::Over, ..v }, ActionView::Abort(why, close))
}

/// The section of the program with index `k`.
pub open spec fn section_of(v: LoaderView, k: int) -> int {
    object::programs(v.object)[k]
}

/// The section of the program loaded last.
pub open spec fn current(v: LoaderView) -> int {
    section_of(v, v.prog_fds.len() - 1)
}

/// Goes on to the next program, or ends where all are attached.
pub open spec fn next_program(v: LoaderView) -> (LoaderView, ActionView) {
    let k = v.prog_fds.len() as int;
    if k >= object::programs(v.object).len() {
        (LoaderView { phase: Phase::Over, ..v }, ActionView::Finish)
    } else {
        match object::relocated(v.data, v.object, v.maps, section_of(v, k)) {
            None => abort(v, Failure::Malformed(section_of(v, k) as usize), Seq::empty()),
            Some(insns) => (
                LoaderView { phase: Phase::LoadProgram, ..v },
                ActionView::LoadProgram(section_of(v, k), insns),
            ),
        }
    }
}

/// What follows the creation of the last map.
pub open spec fn after_maps(v: LoaderView, next: (LoaderView, ActionView)) -> bool {
    if !accepted(v.object) {
        exists|why: Rejection| is_rejection(v.object, why) && next == #[trigger] abort(v, Failure::Rejected(why), all_open(v))
    } else if v.cpus.len() == 0 {
        next == abort(v, Failure::NoCpus, all_open(v))
    } else {
        next == next_program(v)
    }
}

/// The outcome `event` leads from `v` to `next`.
pub open spec fn leads_to(v: LoaderView, event: Event, next: (LoaderView, ActionView)) -> bool {
    match (v.phase, event) {
        (Phase::CreateMap, Event::Opened(None)) => next == abort(
            v,
            Failure::MapRefused(v.maps.len() as usize),
            Seq::empty(),
        ),
        (Phase::CreateMap, Event::Opened(Some(fd))) => {
            let w = LoaderView { maps: v.maps.push(fd), ..v };
            if w.maps.len() < 4 {
                next == (w, ActionView::CreateMap(w.maps.len() as int))
            } else {
                after_maps(w, next)
            }
        },
        (Phase::LoadProgram, Event::Opened(None)) => next == abort(
            v,
            Failure::ProgramRefused(section_of(v, v.prog_fds.len() as int) as usize),
            all_open(v),
        ),
        (Phase::LoadProgram, Event::Opened(Some(fd))) => {
            let w = LoaderView { prog_fds: v.prog_fds.push(fd), phase: Phase::FindTracepoint, ..v };
            match object::tracepoint_of(w.object.sections[current(w)].name->0) {
                None => next == abort(w, Failure::NamelessTracepoint(current(w) as usize), all_open(w)),
                Some((cat, name)) => next == (w, ActionView::FindTracepoint(cat, name)),
            }
        },
        (Phase::FindTracepoint, Event::Tracepoint(None)) => next == abort(
            v,
            Failure::NoTracepoint(current(v) as usize),
            all_open(v),
        ),
        (Phase::FindTracepoint, Event::Tracepoint(Some(id))) => next == (
            LoaderView { sec_perf: Seq::empty(), phase: Phase::OpenPerf(id), ..v },
            ActionView::OpenPerf(id, v.cpus[0]),
        ),
        (Phase::OpenPerf(_), Event::Opened(None)) => next == abort(
            v,
            Failure::PerfRefused(current(v) as usize, v.cpus[v.sec_perf.len() as int]),
            v.sec_perf + all_open(v),
        ),
        (Phase::OpenPerf(id), Event::Opened(Some(fd))) => {
            let w = LoaderView { sec_perf: v.sec_perf.push(fd), ..v };
            if w.sec_perf.len() < w.cpus.len() {
                next == (w, ActionView::OpenPerf(id, w.cpus[w.sec_perf.len() as int]))
            } else {
                next == (
                    LoaderView {
                        perf_fds: w.perf_fds + w.sec_perf,
                        attached: false,
                        phase: Phase::Attach(0),
                        ..w
                    },
                    ActionView::Attach(w.sec_perf[0], w.prog_fds.last()),
                )
            }
        },
        (Phase::Attach(i), Event::Attached(how)) => {
            // A tracepoint holds one program list for all CPUs: behind the first success the
            // program is already there.
            if how == Attachment::Done || (how == Attachment::AlreadyThere && v.attached) {
                next == (
                    LoaderView { attached: true, phase: Phase::Enable(i), ..v },
                    ActionView::Enable(v.sec_perf[i as int]),
                )
            } else {
                next == abort(v, Failure::AttachRefused(current(v) as usize, v.cpus[i as int]), all_open(v))
            }
        },
        (Phase::Enable(i), Event::Enabled(false)) => next == abort(
            v,
            Failure::EnableRefused(current(v) as usize, v.cpus[i as int]),
            all_open(v),
        ),
        (Phase::Enable(i), Event::Enabled(true)) => if i + 1 < v.cpus.len() {
            next == (
                LoaderView { phase: Phase::Attach((i + 1) as usize), ..v },
                ActionView::Attach(v.sec_perf[i + 1], v.prog_fds.last()),
            )
        } else {
            next == next_program(v)
        },
        _ => false,
    }
}

/// What every state on the way satisfies.
pub open spec fn on_the_way(v: LoaderView) -> bool {
    let total = object::programs(v.object).len();
    let done = v.prog_fds.len();
    let ready = v.maps.len() == 4 && accepted(v.object) && v.cpus.len() > 0;
    match v.phase {
        Phase::CreateMap => v.maps.len() < 4 && done == 0 && v.perf_fds.len() == 0 && v.sec_perf.len() == 0,
        Phase::LoadProgram => ready && done < total && v.perf_fds.len() == done * v.cpus.len(),
        Phase::FindTracepoint => ready && 1 <= done <= total && v.perf_fds.len() == (done - 1) * v.cpus.len(),
        Phase::OpenPerf(_) => ready && 1 <= done <= total && v.perf_fds.len() == (done - 1) * v.cpus.len()
            && v.sec_perf.len() < v.cpus.len(),
        Phase::Attach(i) | Phase::Enable(i) => ready && 1 <= done <= total && v.perf_fds.len() == done * v.cpus.len()
            && v.sec_perf.len() == v.cpus.len() && i < v.cpus.len(),
        Phase::Over => true,
    }
}

/// The state in which loading starts.
pub open spec fn started(object: object::ObjectView, data: Seq<u8>, cpus: Seq<i32>) -> LoaderView {
    LoaderView {
        object,
        data,
        cpus,
        maps: Seq::empty(),
        prog_fds: Seq::empty(),
        perf_fds: Seq::empty(),
        sec_perf: Seq::empty(),
        attached: false,
        phase: Phase::CreateMap,
    }
}

impl BpfLoader {
    /// The state is one on the way, and what was worked out of the object fits it.
    pub open spec fn wf(&self) -> bool {
        &&& on_the_way(self@)
        &&& self.phase != Phase::CreateMap && self.phase != Phase::Over ==> {
            &&& object::binds(self.object@, self.bound@)
            &&& object::lists_programs(self.object@, self.progs@)
        }
    }

    /// Starts with an object that was read from `data`.
    pub fn with_object(object: ElfObject, data: &[u8], cpus: &[i32]) -> (r: (BpfLoader, Action))
        ensures
            r.0.wf(),
            r.0@ == started(object@, data@, cpus@),
            r.1@ == ActionView::CreateMap(0),
    {
        let loader = BpfLoader {
            object,
            data: vstd::slice::slice_to_vec(data),
            cpus: vstd::slice::slice_to_vec(cpus),
            maps: Vec::new(),
            prog_fds: Vec::new(),
            perf_fds: Vec::new(),
            sec_perf: Vec::new(),
            attached: false,
            phase: Phase::CreateMap,
            bound: Vec::new(),
            progs: Vec::new(),
        };
        (loader, Action::CreateMap(0))
    }

    /// Starts with the object file `data`; none where it is no object file.
    pub fn load(data: &[u8], cpus: &[i32]) -> (r: Option<(BpfLoader, Action)>)
        ensures
            match r {
                Some((loader, action)) => {
                    &&& loader.wf()
                    &&& object::elf_object(data@) is Some
                    &&& loader@ == started(object::elf_object(data@)->0, data@, cpus@)
                    &&& action@ == ActionView::CreateMap(0)
                },
                None => object::elf_object(data@) is None,
            },
    {
        match object::parse_elf(data) {
            Some(o) => Some(BpfLoader::with_object(o, data, cpus)),
            None => None,
        }
    }

    /// The descriptors to close: `first`, then maps, programs and perf events.
    fn close_list(&self, first: &Vec<i32>) -> (r: Vec<i32>)
        ensures
            r@ == first@ + all_open(self@),
    {
        let mut r: Vec<i32> = Vec::new();
        append_all(&mut r, first);
        append_all(&mut r, &self.maps);
        append_all(&mut r, &self.prog_fds);
        append_all(&mut r, &self.perf_fds);
        proof {
            assert(r@ =~= first@ + all_open(self@));
        }
        r
    }

    /// Gives up and closes what is open.
    fn give_up(&mut self, why: Failure) -> (r: Action)
        ensures
            (final(self)@, r@) == abort(old(self)@, why, all_open(old(self)@)),
            final(self).wf(),
    {
        let close = self.close_list(&Vec::new());
        self.phase = Phase::Over;
        proof {
            assert(close@ =~= all_open(old(self)@));
        }
        Action::Abort(why, close)
    }

    /// Goes on to the next program.
    fn advance(&mut self) -> (r: Action)
        requires
            old(self)@.maps.len() == 4,
            accepted(old(self)@.object),
            old(self)@.cpus.len() > 0,
            old(self)@.perf_fds.len() == old(self)@.prog_fds.len() * old(self)@.cpus.len(),
            object::binds(old(self).object@, old(self).bound@),
            object::lists_programs(old(self).object@, old(self).progs@),
        ensures
            (final(self)@, r@) == next_program(old(self)@),
            final(self).wf(),
    {
        let k: usize = self.prog_fds.len();
        proof {
            assert(self.progs@.map_values(|i: usize| i as int).len() == self.progs@.len());
        }
        if k >= self.progs.len() {
            self.phase = Phase::Over;
            return Action::Finish;
        }
        let section: usize = self.progs[k];
        proof {
            assert(self.progs@.map_values(|i: usize| i as int)[k as int] == section as int);
        }
        match object::relocate(&self.data, &self.object, &self.bound, &self.maps, section) {
            None => {
                self.phase = Phase::Over;
                Action::Abort(Failure::Malformed(section), Vec::new())
            },
            Some(insns) => {
                self.phase = Phase::LoadProgram;
                Action::LoadProgram(section, insns)
            },
        }
    }

    /// Tests the object once every map exists, and goes on to the first program.
    fn examine(&mut self) -> (r: Action)
        requires
            old(self)@.maps.len() == 4,
            old(self)@.prog_fds.len() == 0,
            old(self)@.perf_fds.len() == 0,
        ensures
            after_maps(old(self)@, (final(self)@, r@)),
            final(self).wf(),
    {
        let bound = match object::bind_maps(&self.object) {
            Ok(bound) => bound,
            Err(why) => {
                proof {
                    assert(is_rejection(self.object@, why));
                }
                return self.give_up(Failure::Rejected(why));
            },
        };
        let progs = object::program_sections(&self.object);
        match object::check_programs(&self.object, &progs) {
            Some(why) => {
                proof {
                    assert(is_rejection(self.object@, why));
                }
                return self.give_up(Failure::Rejected(why));
            },
            None => {},
        }
        if self.cpus.len() == 0 {
            return self.give_up(Failure::NoCpus);
        }
        self.bound = bound;
        self.progs = progs;
        proof {
            assert(0 == 0 * self@.cpus.len()) by (nonlinear_arith);
        }
        self.advance()
    }

    /// The section of the program loaded last.
    fn current_section(&self) -> (r: usize)
        requires
            object::lists_programs(self.object@, self.progs@),
            1 <= self@.prog_fds.len() <= object::programs(self@.object).len(),
        ensures
            r as int == current(self@),
            r < self.object@.sections.len(),
            object::is_program(self.object@.sections[r as int]),
    {
        let k: usize = self.prog_fds.len() - 1;
        proof {
            let m = self.progs@.map_values(|i: usize| i as int);
            assert(m.len() == self.progs@.len());
            assert(m[k as int] == self.progs@[k as int] as int);
        }
        self.progs[k]
    }

    /// A program was loaded: finds the name of its tracepoint.
    fn program_loaded(&mut self, fd: i32) -> (r: Action)
        requires
            old(self).wf(),
            old(self).phase == Phase::LoadProgram,
        ensures
            leads_to(old(self)@, Event::Opened(Some(fd)), (final(self)@, r@)),
            final(self).wf(),
    {
        self.prog_fds.push(fd);
        self.phase = Phase::FindTracepoint;
        let section: usize = self.current_section();
        proof {
            assert(self.object@.sections[section as int] == self.object.sections@[section as int]@);
        }
        let parts = match &self.object.sections[section].name {
            Some(n) => object::tracepoint_parts(n.as_str()),
            None => None,
        };
        match parts {
            None => self.give_up(Failure::NamelessTracepoint(section)),
            Some((cat, name)) => Action::FindTracepoint(cat, name),
        }
    }

    /// A perf event was opened: opens the next, or attaches the program on the first CPU.
    fn perf_opened(&mut self, id: u64, fd: i32) -> (r: Action)
        requires
            old(self).wf(),
            old(self).phase == Phase::OpenPerf(id),
        ensures
            leads_to(old(self)@, Event::Opened(Some(fd)), (final(self)@, r@)),
            final(self).wf(),
    {
        self.sec_perf.push(fd);
        if self.sec_perf.len() < self.cpus.len() {
            return Action::OpenPerf(id, self.cpus[self.sec_perf.len()]);
        }
        append_all(&mut self.perf_fds, &self.sec_perf);
        self.attached = false;
        self.phase = Phase::Attach(0);
        proof {
            let n = self@.prog_fds.len();
            let c = self@.cpus.len();
            assert((n - 1) * c + c == n * c) by (nonlinear_arith);
        }
        Action::Attach(self.sec_perf[0], self.prog_fds[self.prog_fds.len() - 1])
    }

    /// Takes the outcome of the last action and says what comes next.
    pub fn step(&mut self, event: Event) -> (r: Action)
        requires
            old(self).wf(),
            awaits(old(self).phase, event),
        ensures
            final(self).wf(),
            leads_to(old(self)@, event, (final(self)@, r@)),
    {
        match (self.phase, event) {
            (Phase::CreateMap, Event::Opened(None)) => {
                let m: usize = self.maps.len();
                self.phase = Phase::Over;
                Action::Abort(Failure::MapRefused(m), Vec::new())
            },
            (Phase::CreateMap, Event::Opened(Some(fd))) => {
                self.maps.push(fd);
                if self.maps.len() < 4 {
                    Action::CreateMap(self.maps.len())
                } else {
                    self.examine()
                }
            },
            (Phase::LoadProgram, Event::Opened(None)) => {
                let k: usize = self.prog_fds.len();
                proof {
                    let m = self.progs@.map_values(|i: usize| i as int);
                    assert(m.len() == self.progs@.len());
                    assert(m[k as int] == self.progs@[k as int] as int);
                }
                let section: usize = self.progs[k];
                self.give_up(Failure::ProgramRefused(section))
            },
            (Phase::LoadProgram, Event::Opened(Some(fd))) => self.program_loaded(fd),
            (Phase::FindTracepoint, Event::Tracepoint(None)) => {
                let section: usize = self.current_section();
                self.give_up(Failure::NoTracepoint(section))
            },
            (Phase::FindTracepoint, Event::Tracepoint(Some(id))) => {
                self.sec_perf = Vec::new();
                self.phase = Phase::OpenPerf(id);
                Action::OpenPerf(id, self.cpus[0])
            },
            (Phase::OpenPerf(_), Event::Opened(None)) => {
                let section: usize = self.current_section();
                let close = self.close_list(&self.sec_perf);
                let cpu: i32 = self.cpus[self.sec_perf.len()];
                self.phase = Phase::Over;
                Action::Abort(Failure::PerfRefused(section, cpu), close)
            },
            (Phase::OpenPerf(id), Event::Opened(Some(fd))) => self.perf_opened(id, fd),
            (Phase::Attach(i), Event::Attached(how)) => {
                let there: bool = match how {
                    Attachment::Done => true,
                    Attachment::AlreadyThere => self.attached,
                    Attachment::Failed => false,
                };
                if there {
                    self.attached = true;
                    self.phase = Phase::Enable(i);
                    Action::Enable(self.sec_perf[i])
                } else {
                    let section: usize = self.current_section();
                    let cpu: i32 = self.cpus[i];
                    self.give_up(Failure::AttachRefused(section, cpu))
                }
            },
            (Phase::Enable(i), Event::Enabled(ok)) => {
                if !ok {
                    let section: usize = self.current_section();
                    let cpu: i32 = self.cpus[i];
                    self.give_up(Failure::EnableRefused(section, cpu))
                } else if i < self.cpus.len() - 1 {
                    self.phase = Phase::Attach(i + 1);
                    Action::Attach(self.sec_perf[i + 1], self.prog_fds[self.prog_fds.len() - 1])
                } else {
                    self.advance()
                }
            },
            _ => Action::Finish,
        }
    }

    /// The descriptors of a running probe in the order in which they are closed: perf events,
    /// programs, maps.
    pub fn shutdown(&self) -> (r: Vec<i32>)
        ensures
            r@ == self@.perf_fds + self@.prog_fds + self@.maps,
    {
        let mut r: Vec<i32> = Vec::new();
        append_all(&mut r, &self.perf_fds);
        append_all(&mut r, &self.prog_fds);
        append_all(&mut r, &self.maps);
        proof {
            assert(r@ =~= self@.perf_fds + self@.prog_fds + self@.maps);
        }
        r
    }
}

/// Puts `more` behind `v`.
fn append_all(v: &mut Vec<i32>, more: &Vec<i32>)
    ensures
        final(v)@ == old(v)@ + more@,
{
    let mut i: usize = 0;
    while i < more.len()
        invariant
            i <= more@.len(),
            v@ == old(v)@ + more@.take(i as int),
        decreases more@.len() - i,
    {
        v.push(more[i]);
        i += 1;
        proof {
            assert(v@ =~= old(v)@ + more@.take(i as int));
        }
    }
    proof {
        assert(more@.take(i as int) =~= more@);
    }
}

// ---- Laws ----

/// Every descriptor that was opened and not closed in state `v`.
pub open spec fn held(v: LoaderView) -> Seq<i32> {
    match v.phase {
        Phase::OpenPerf(_) => v.sec_perf + all_open(v),
        _ => all_open(v),
    }
}

/// The descriptor that an outcome brings.
pub open spec fn brought(event: Event) -> Seq<i32> {
    match event {
        Event::Opened(Some(fd)) => seq![fd],
        _ => Seq::empty(),
    }
}

/// Giving up for this reason leaves descriptors to the end of the process.
pub open spec fn is_fatal(why: Failure) -> bool {
    why is MapRefused || why is Malformed
}

/// No descriptor is forgotten: after every outcome, what is still held, or closed where the
/// loader gives up, is what was held before and what the outcome brought. Where a map is
/// refused, and where the object reaches out of its file, nothing is closed.
pub proof fn no_descriptor_is_forgotten(v: LoaderView, event: Event, next: (LoaderView, ActionView))
    requires
        on_the_way(v),
        awaits(v.phase, event),
        leads_to(v, event, next),
    ensures
        match next.1 {
            ActionView::Abort(why, close) => !is_fatal(why) ==> close.to_multiset() == (held(v) + brought(
                event,
            )).to_multiset(),
            _ => held(next.0).to_multiset() == (held(v) + brought(event)).to_multiset(),
        },
        next.1 matches ActionView::Abort(why, close) ==> is_fatal(why) ==> close.len() == 0,
{
    let before = held(v) + brought(event);
    match (v.phase, event) {
        (Phase::CreateMap, Event::Opened(Some(fd))) => {
            let w = LoaderView { maps: v.maps.push(fd), ..v };
            assert(all_open(w) =~= before);
            if w.maps.len() >= 4 && !accepted(w.object) {
                let why = choose|why: Rejection|
                    is_rejection(w.object, why) && next == #[trigger] abort(w, Failure::Rejected(why), all_open(w));
                assert(next == abort(w, Failure::Rejected(why), all_open(w)));
            }
        },
        (Phase::LoadProgram, Event::Opened(Some(fd))) => {
            let w = LoaderView { prog_fds: v.prog_fds.push(fd), phase: Phase::FindTracepoint, ..v };
            assert(all_open(w) =~= (v.maps + v.prog_fds).push(fd) + v.perf_fds);
            assert(before =~= (v.maps + v.prog_fds + v.perf_fds).push(fd));
            lemma_moved(v.maps + v.prog_fds, v.perf_fds, Seq::empty(), fd);
            assert((v.maps + v.prog_fds).push(fd) + v.perf_fds + Seq::<i32>::empty() =~= all_open(w));
            assert((v.maps + v.prog_fds + v.perf_fds + Seq::<i32>::empty()).push(fd) =~= before);
        },
        (Phase::OpenPerf(id), Event::Opened(Some(fd))) => {
            let w = LoaderView { sec_perf: v.sec_perf.push(fd), ..v };
            lemma_moved(v.sec_perf, all_open(v), Seq::empty(), fd);
            assert(v.sec_perf.push(fd) + all_open(v) + Seq::<i32>::empty() =~= w.sec_perf + all_open(w));
            assert((v.sec_perf + all_open(v) + Seq::<i32>::empty()).push(fd) =~= before);
            if w.sec_perf.len() >= w.cpus.len() {
                assert(held(next.0) =~= all_open(w) + w.sec_perf);
                vstd::seq_lib::lemma_multiset_commutative(all_open(w), w.sec_perf);
                vstd::seq_lib::lemma_multiset_commutative(w.sec_perf, all_open(w));
                assert(held(next.0).to_multiset() =~= (w.sec_perf + all_open(w)).to_multiset());
            }
        },
        _ => {
            assert(before =~= held(v));
            if v.phase is FindTracepoint && next.1 is OpenPerf {
                assert(held(next.0) =~= held(v));
            }
        },
    }
}

proof fn lemma_moved(a: Seq<i32>, b: Seq<i32>, c: Seq<i32>, x: i32)
    ensures
        (a.push(x) + b + c).to_multiset() == (a + b + c).push(x).to_multiset(),
{
    let whole = a + b + c;
    assert(a.push(x) + b + c =~= whole.insert(a.len() as int, x));
    vstd::seq_lib::to_multiset_insert(whole, a.len() as int, x);
    vstd::seq_lib::to_multiset_build(whole, x);
}

/// The states on the way lead only to states on the way.
pub proof fn the_way_is_kept(v: LoaderView, event: Event, next: (LoaderView, ActionView))
    requires
        on_the_way(v),
        awaits(v.phase, event),
        leads_to(v, event, next),
    ensures
        on_the_way(next.0),
{
    let n = v.prog_fds.len();
    let c = v.cpus.len();
    assert((n - 1) * c + c == n * c) by (nonlinear_arith);
    assert(0 * c == 0) by (nonlinear_arith);
    match (v.phase, event) {
        (Phase::CreateMap, Event::Opened(Some(fd))) => {
            let w = LoaderView { maps: v.maps.push(fd), ..v };
            if w.maps.len() >= 4 && !accepted(w.object) {
                let why = choose|why: Rejection|
                    is_rejection(w.object, why) && next == #[trigger] abort(w, Failure::Rejected(why), all_open(w));
                assert(next == abort(w, Failure::Rejected(why), all_open(w)));
            }
        },
        _ => {},
    }
}

/// The probe counts as running only when every map exists and every program of the object, the
/// four required ones among them, is loaded, with as many perf events as there are CPUs, and the last of them was just enabled.
pub proof fn finish_means_complete(v: LoaderView, event: Event, next: (LoaderView, ActionView))
    requires
        on_the_way(v),
        awaits(v.phase, event),
        leads_to(v, event, next),
        next.1 is Finish,
    ensures
        next.0.maps.len() == 4,
        accepted(next.0.object),
        next.0.prog_fds.len() == object::programs(next.0.object).len(),
        next.0.prog_fds.len() >= 4,
        next.0.perf_fds.len() == next.0.prog_fds.len() * next.0.cpus.len(),
        v.phase == Phase::Enable((v.cpus.len() - 1) as usize) && event == Event::Enabled(true),
{
    lemma_accepted_has_programs(v.object);
    if v.phase is CreateMap {
        let fd = event->Opened_0->0;
        let w = LoaderView { maps: v.maps.push(fd), ..v };
        if !accepted(w.object) {
            let why = choose|why: Rejection|
                is_rejection(w.object, why) && next == #[trigger] abort(w, Failure::Rejected(why), all_open(w));
            assert(next == abort(w, Failure::Rejected(why), all_open(w)));
        }
    }
}

/// A run of the loader: every outcome leads from one state to the next, with an action.
pub open spec fn is_run(states: Seq<LoaderView>, events: Seq<Event>, actions: Seq<ActionView>) -> bool {
    &&& states.len() == events.len() + 1
    &&& actions.len() == events.len()
    &&& states[0] == started(states[0].object, states[0].data, states[0].cpus)
    &&& forall|i: int|
        0 <= i < events.len() ==> {
            &&& awaits(states[i].phase, #[trigger] events[i])
            &&& leads_to(states[i], events[i], (states[i + 1], actions[i]))
        }
}

/// Within the first `n` outcomes of a run, program `k` was enabled on the CPU with index `c`.
pub open spec fn was_enabled(states: Seq<LoaderView>, events: Seq<Event>, n: int, k: int, c: int) -> bool {
    exists|j: int|
        0 <= j < n && (#[trigger] states[j]).prog_fds.len() == k + 1 && states[j].phase == Phase::Enable(c as usize)
            && events[j] == Event::Enabled(true)
}

/// In state `v` program `k` has to be enabled on the CPU with index `c`.
spec fn is_due(v: LoaderView, k: int, c: int) -> bool {
    let n = v.prog_fds.len() as int;
    0 <= k && 0 <= c < v.cpus.len() && match v.phase {
        Phase::CreateMap => false,
        Phase::LoadProgram => k < n,
        Phase::FindTracepoint | Phase::OpenPerf(_) => k < n - 1,
        Phase::Attach(i) | Phase::Enable(i) => k < n - 1 || (k == n - 1 && c < i),
        Phase::Over => false,
    }
}

proof fn lemma_run(states: Seq<LoaderView>, events: Seq<Event>, actions: Seq<ActionView>, n: int)
    requires
        is_run(states, events, actions),
        0 <= n <= events.len(),
    ensures
        on_the_way(states[n]),
        states[n].cpus == states[0].cpus,
        states[n].object == states[0].object,
        forall|k: int, c: int| #[trigger] is_due(states[n], k, c) ==> was_enabled(states, events, n, k, c),
    decreases n,
{
    if n > 0 {
        let v = states[n - 1];
        let event = events[n - 1];
        let next = (states[n], actions[n - 1]);
        lemma_run(states, events, actions, n - 1);
        the_way_is_kept(v, event, next);
        lemma_step_keeps(v, event, next);
        assert forall|k: int, c: int| #[trigger] is_due(states[n], k, c) implies was_enabled(
            states,
            events,
            n,
            k,
            c,
        ) by {
            if is_due(v, k, c) {
                let j = choose|j: int|
                    0 <= j < n - 1 && (#[trigger] states[j]).prog_fds.len() == k + 1 && states[j].phase
                        == Phase::Enable(c as usize) && events[j] == Event::Enabled(true);
                assert(states[j].prog_fds.len() == k + 1);
            } else {
                assert(states[n - 1].prog_fds.len() == k + 1);
            }
        }
    }
}

/// A step leaves object and CPUs alone, and what becomes due with it is what it enabled.
proof fn lemma_step_keeps(v: LoaderView, event: Event, next: (LoaderView, ActionView))
    requires
        on_the_way(v),
        awaits(v.phase, event),
        leads_to(v, event, next),
    ensures
        next.0.cpus == v.cpus,
        next.0.object == v.object,
        forall|k: int, c: int| #[trigger]
            is_due(next.0, k, c) && !is_due(v, k, c) ==> k == v.prog_fds.len() - 1 && v.phase == Phase::Enable(
                c as usize,
            ) && event == Event::Enabled(true),
{
    if v.phase is CreateMap && event->Opened_0 is Some {
        let fd = event->Opened_0->0;
        let w = LoaderView { maps: v.maps.push(fd), ..v };
        if w.maps.len() >= 4 && !accepted(w.object) {
            let why = choose|why: Rejection|
                is_rejection(w.object, why) && next == #[trigger] abort(w, Failure::Rejected(why), all_open(w));
            assert(next == abort(w, Failure::Rejected(why), all_open(w)));
        }
    }
}

/// When the probe runs, every program of the object was enabled on every CPU.
pub proof fn a_running_probe_is_enabled_everywhere(
    states: Seq<LoaderView>,
    events: Seq<Event>,
    actions: Seq<ActionView>,
    k: int,
    c: int,
)
    requires
        is_run(states, events, actions),
        actions.len() > 0,
        actions.last() is Finish,
        0 <= k < object::programs(states[0].object).len(),
        0 <= c < states[0].cpus.len(),
        states[0].cpus.len() <= usize::MAX,
    ensures
        was_enabled(states, events, events.len() as int, k, c),
{
    let n = events.len() - 1;
    let v = states[n];
    let next = (states[n + 1], actions[n]);
    lemma_run(states, events, actions, n);
    assert(awaits(v.phase, events[n]));
    finish_means_complete(v, events[n], next);
    lemma_step_keeps(v, events[n], next);
    if is_due(v, k, c) {
        let j = choose|j: int|
            0 <= j < n && (#[trigger] states[j]).prog_fds.len() == k + 1 && states[j].phase == Phase::Enable(
                c as usize,
            ) && events[j] == Event::Enabled(true);
        assert(states[j].prog_fds.len() == k + 1);
    } else {
        assert(states[n].prog_fds.len() == k + 1);
    }
}

/// An accepted object has the four required programs.
proof fn lemma_accepted_has_programs(o: object::ObjectView)
    ensures
        accepted(o) ==> object::programs(o).len() >= 4,
{
    if accepted(o) {
        let r = object::required_sections();
        reveal_strlit("tracepoint/sched/sched_switch");
        reveal_strlit("tracepoint/sched/sched_process_fork");
        reveal_strlit("tracepoint/sched/sched_process_exit");
        reveal_strlit("tracepoint/sched/sched_process_free");
        assert(r[0].len() == 29 && r[1].len() == 35 && r[2].len() == 35 && r[3].len() == 35);
        assert(r[1][31] == 'f' && r[2][31] == 'e' && r[3][31] == 'f');
        assert(r[1][32] == 'o' && r[3][32] == 'r');
        let k0 = lemma_program_listed(o, r[0]);
        let k1 = lemma_program_listed(o, r[1]);
        let k2 = lemma_program_listed(o, r[2]);
        let k3 = lemma_program_listed(o, r[3]);
        assert(k0 != k1 && k0 != k2 && k0 != k3 && k1 != k2 && k1 != k3 && k2 != k3);
    }
}

/// The place of a program among those of the object.
proof fn lemma_program_listed(o: object::ObjectView, name: Seq<char>) -> (k: int)
    requires
        object::has_program(o, name),
    ensures
        0 <= k < object::programs(o).len(),
        o.sections[object::programs(o)[k]].name == Some(name),
{
    let i = choose|i: int|
        0 <= i < o.sections.len() && object::is_program(#[trigger] o.sections[i]) && o.sections[i].name == Some(name);
    object::lemma_programs_complete(o, o.sections.len() as int, i);
    object::programs(o).index_of(i)
}

/// How many maps and programs stand, and how far the program loaded last has come.
pub open spec fn progress(v: LoaderView) -> (nat, int) {
    let c = v.cpus.len() as int;
    (
        v.maps.len() + v.prog_fds.len(),
        match v.phase {
            Phase::CreateMap => 0,
            Phase::FindTracepoint => 0,
            Phase::OpenPerf(_) => 1 + v.sec_perf.len() as int,
            Phase::Attach(i) => 1 + c + 2 * i,
            Phase::Enable(i) => 2 + c + 2 * i,
            Phase::LoadProgram => 1 + 3 * c,
            Phase::Over => 2 + 3 * c,
        },
    )
}

/// Loading ends: every outcome leads forward, and there is a last position.
pub proof fn loading_ends(v: LoaderView, event: Event, next: (LoaderView, ActionView))
    requires
        on_the_way(v),
        awaits(v.phase, event),
        leads_to(v, event, next),
        v.cpus.len() <= usize::MAX,
    ensures
        progress(v).0 < progress(next.0).0 || (progress(v).0 == progress(next.0).0 && progress(v).1 < progress(next.0).1),
        progress(next.0).0 <= 4 + object::programs(v.object).len(),
        progress(next.0).1 <= 2 + 3 * v.cpus.len(),
        next.0.object == v.object && next.0.cpus == v.cpus && next.0.data == v.data,
{
    if v.phase is CreateMap && event->Opened_0 is Some {
        let fd = event->Opened_0->0;
        let w = LoaderView { maps: v.maps.push(fd), ..v };
        if w.maps.len() >= 4 && !accepted(w.object) {
            let why = choose|why: Rejection|
                is_rejection(w.object, why) && next == #[trigger] abort(w, Failure::Rejected(why), all_open(w));
            assert(next == abort(w, Failure::Rejected(why), all_open(w)));
        }
    }
}

// ---- What each step asks for ----

/// What is asked for next goes on where loading stands: the next map, the next program of the
/// object, its tracepoint, a perf event for it on the next CPU, and on each CPU in turn the program
/// loaded last attached to that CPU's perf event, and then that perf event enabled.
pub proof fn each_step_asks_for_what_comes_next(v: LoaderView, event: Event, next: (LoaderView, ActionView))
    requires
        on_the_way(v),
        awaits(v.phase, event),
        leads_to(v, event, next),
        v.cpus.len() <= usize::MAX,
    ensures
        match next.1 {
            ActionView::CreateMap(m) => m == next.0.maps.len() && next.0.phase is CreateMap,
            ActionView::LoadProgram(section, insns) => {
                &&& next.0.phase is LoadProgram
                &&& section == object::programs(v.object)[next.0.prog_fds.len() as int]
                &&& Some(insns) == object::relocated(v.data, v.object, next.0.maps, section)
            },
            ActionView::FindTracepoint(cat, name) => {
                &&& next.0.phase is FindTracepoint
                &&& object::tracepoint_of(
                    v.object.sections[object::programs(v.object)[next.0.prog_fds.len() - 1]].name->0,
                ) == Some((cat, name))
            },
            ActionView::OpenPerf(id, cpu) => {
                &&& next.0.phase == Phase::OpenPerf(id)
                &&& cpu == v.cpus[next.0.sec_perf.len() as int]
                &&& v.phase == Phase::OpenPerf(id) || event == Event::Tracepoint(Some(id))
            },
            ActionView::Attach(perf, prog) => {
                &&& next.0.phase matches Phase::Attach(i) && perf == next.0.sec_perf[i as int]
                &&& prog == next.0.prog_fds.last()
            },
            ActionView::Enable(perf) => next.0.phase matches Phase::Enable(i) && v.phase == Phase::Attach(i) && perf
                == next.0.sec_perf[i as int],
            ActionView::Finish => next.0.phase is Over && next.0.prog_fds.len() == object::programs(v.object).len(),
            ActionView::Abort(_, _) => next.0.phase is Over,
        },
{
    if v.phase is CreateMap && event->Opened_0 is Some {
        let fd = event->Opened_0->0;
        let w = LoaderView { maps: v.maps.push(fd), ..v };
        if w.maps.len() >= 4 && !accepted(w.object) {
            let why = choose|why: Rejection|
                is_rejection(w.object, why) && next == #[trigger] abort(w, Failure::Rejected(why), all_open(w));
            assert(next == abort(w, Failure::Rejected(why), all_open(w)));
        }
    }
}

/// The outcome is a success: what was asked for is there. A program counts as attached where the
/// tracepoint holds it already, once it was attached on some CPU.
pub open spec fn is_success(v: LoaderView, event: Event) -> bool {
    match event {
        Event::Opened(fd) => fd is Some,
        Event::Tracepoint(id) => id is Some,
        Event::Attached(how) => how == Attachment::Done || (how == Attachment::AlreadyThere && v.attached),
        Event::Enabled(ok) => ok,
    }
}

/// A failure ends loading, and a success goes on: it keeps what it brought, and loading is given
/// up only where the object is no probe, no CPU is online, a program or its relocations reach out
/// of the file, or a section name gives no tracepoint.
pub proof fn success_goes_on_and_failure_ends(v: LoaderView, event: Event, next: (LoaderView, ActionView))
    requires
        on_the_way(v),
        awaits(v.phase, event),
        leads_to(v, event, next),
        v.object.sections.len() <= usize::MAX,
    ensures
        !is_success(v, event) ==> next.1 is Abort,
        is_success(v, event) ==> match next.1 {
            ActionView::Abort(why, _) => {
                ||| why is Rejected && !accepted(v.object)
                ||| why is NoCpus && v.cpus.len() == 0
                ||| why matches Failure::Malformed(s) && object::programs(v.object).contains(s as int)
                    && object::relocated(v.data, v.object, next.0.maps, s as int) is None
                ||| why matches Failure::NamelessTracepoint(s) && object::tracepoint_of(
                    v.object.sections[s as int].name->0,
                ) is None
            },
            _ => true,
        },
        event matches Event::Opened(Some(fd)) ==> match v.phase {
            Phase::CreateMap => next.0.maps == v.maps.push(fd),
            Phase::LoadProgram => next.0.prog_fds == v.prog_fds.push(fd),
            _ => next.0.sec_perf == v.sec_perf.push(fd),
        },
{
    let total = object::programs(v.object).len();
    if v.object.sections.len() > 0 {
        object::programs_are_the_tracepoint_sections(v.object, 0);
    }
    assert forall|k: int| 0 <= k < total implies object::programs(v.object).contains(
        #[trigger] object::programs(v.object)[k],
    ) by {}
    if v.object.sections.len() == 0 {
        assert(total == 0);
    }
    if v.phase is CreateMap && event->Opened_0 is Some {
        let fd = event->Opened_0->0;
        let w = LoaderView { maps: v.maps.push(fd), ..v };
        if w.maps.len() >= 4 && !accepted(w.object) {
            let why = choose|why: Rejection|
                is_rejection(w.object, why) && next == #[trigger] abort(w, Failure::Rejected(why), all_open(w));
            assert(next == abort(w, Failure::Rejected(why), all_open(w)));
        }
    }
}

/// An object is accepted where every named symbol of its map section is one of the four maps, each
/// of the four is declared there, and each of the four scheduler programs holds bytes.
pub proof fn a_probe_has_four_maps_and_four_programs(o: object::ObjectView)
    ensures
        accepted(o) <==> {
            &&& forall|i: int|
                0 <= i < o.symbols.len() && object::is_maps_section(o, (#[trigger] o.symbols[i]).shndx as int) ==> (
                o.symbols[i].name matches Some(n) ==> n.len() == 0 || n == "stats"@ || n == "sched_start"@ || n
                    == "pid_gen"@ || n == "latency"@)
            &&& declares(o, "stats"@) && declares(o, "sched_start"@) && declares(o, "pid_gen"@) && declares(
                o,
                "latency"@,
            )
            &&& holds_program(o, "tracepoint/sched/sched_switch"@)
            &&& holds_program(o, "tracepoint/sched/sched_process_fork"@)
            &&& holds_program(o, "tracepoint/sched/sched_process_exit"@)
            &&& holds_program(o, "tracepoint/sched/sched_process_free"@)
        },
{
    reveal_strlit("stats");
    reveal_strlit("sched_start");
    reveal_strlit("pid_gen");
    reveal_strlit("latency");
    assert("stats"@.len() == 5 && "sched_start"@.len() == 11 && "pid_gen"@.len() == 7 && "latency"@.len() == 7);
    assert("pid_gen"@[0] != "latency"@[0]);
    assert forall|i: int| 0 <= i < o.symbols.len() implies {
        &&& #[trigger] object::is_unknown_map(o, i) <==> !(object::is_maps_section(o, o.symbols[i].shndx as int) ==> (
        o.symbols[i].name matches Some(n) ==> n.len() == 0 || n == "stats"@ || n == "sched_start"@ || n == "pid_gen"@
            || n == "latency"@))
    } by {
        object::four_maps_are_known(o, i);
    }
    if forall|i: int|
        0 <= i < o.symbols.len() && object::is_maps_section(o, (#[trigger] o.symbols[i]).shndx as int) ==> (
        o.symbols[i].name matches Some(n) ==> n.len() == 0 || n == "stats"@ || n == "sched_start"@ || n == "pid_gen"@
            || n == "latency"@) {
        assert forall|i: int| 0 <= i < o.symbols.len() implies !object::is_unknown_map(o, i) by {
            assert(object::is_maps_section(o, o.symbols[i].shndx as int) ==> true);
        }
    }
    if forall|i: int| 0 <= i < o.symbols.len() ==> !object::is_unknown_map(o, i) {
        assert forall|i: int|
            0 <= i < o.symbols.len() && object::is_maps_section(o, (#[trigger] o.symbols[i]).shndx as int) implies (
        o.symbols[i].name matches Some(n) ==> n.len() == 0 || n == "stats"@ || n == "sched_start"@ || n == "pid_gen"@
            || n == "latency"@) by {
            assert(!object::is_unknown_map(o, i));
        }
    }
    lemma_declares(o, "stats"@, 0);
    lemma_declares(o, "sched_start"@, 1);
    lemma_declares(o, "pid_gen"@, 2);
    lemma_declares(o, "latency"@, 3);
    let r = object::required_sections();
    lemma_holds_program(o, "tracepoint/sched/sched_switch"@);
    lemma_holds_program(o, "tracepoint/sched/sched_process_fork"@);
    lemma_holds_program(o, "tracepoint/sched/sched_process_exit"@);
    lemma_holds_program(o, "tracepoint/sched/sched_process_free"@);
    assert(r[0] == "tracepoint/sched/sched_switch"@ && r[1] == "tracepoint/sched/sched_process_fork"@ && r[2]
        == "tracepoint/sched/sched_process_exit"@ && r[3] == "tracepoint/sched/sched_process_free"@);
    if forall|i: int| 0 <= i < 4 ==> object::has_program(o, #[trigger] r[i]) {
        assert(object::has_program(o, r[0]) && object::has_program(o, r[1]) && object::has_program(o, r[2])
            && object::has_program(o, r[3]));
    }
    if forall|m: int| 0 <= m < 4 ==> object::is_declared(o, m) {
        assert(object::is_declared(o, 0) && object::is_declared(o, 1) && object::is_declared(o, 2) && object::is_declared(
            o,
            3,
        ));
    }
}

/// A symbol of the map section has this name.
pub open spec fn declares(o: object::ObjectView, name: Seq<char>) -> bool {
    exists|i: int|
        0 <= i < o.symbols.len() && (#[trigger] o.symbols[i]).name == Some(name) && object::is_maps_section(
            o,
            o.symbols[i].shndx as int,
        )
}

/// A section of this name holds program bytes.
pub open spec fn holds_program(o: object::ObjectView, name: Seq<char>) -> bool {
    exists|i: int|
        0 <= i < o.sections.len() && (#[trigger] o.sections[i]).name == Some(name) && o.sections[i].sh_type == 1
            && o.sections[i].sh_size > 0
}

proof fn lemma_declares(o: object::ObjectView, name: Seq<char>, m: int)
    requires
        (m == 0 && name == "stats"@) || (m == 1 && name == "sched_start"@) || (m == 2 && name == "pid_gen"@) || (m == 3
            && name == "latency"@),
    ensures
        object::is_declared(o, m) <==> declares(o, name),
{
    reveal_strlit("stats");
    reveal_strlit("sched_start");
    reveal_strlit("pid_gen");
    reveal_strlit("latency");
    assert("stats"@.len() == 5 && "sched_start"@.len() == 11 && "pid_gen"@.len() == 7 && "latency"@.len() == 7);
    assert("pid_gen"@[0] != "latency"@[0]);
    assert forall|i: int| 0 <= i < o.symbols.len() implies (#[trigger] object::symbol_map(o, i) == Some(m)
        <==> o.symbols[i].name == Some(name) && object::is_maps_section(o, o.symbols[i].shndx as int)) by {
        object::four_maps_are_known(o, i);
    }
    if declares(o, name) {
        let i = choose|i: int|
            0 <= i < o.symbols.len() && (#[trigger] o.symbols[i]).name == Some(name) && object::is_maps_section(
                o,
                o.symbols[i].shndx as int,
            );
        assert(object::symbol_map(o, i) == Some(m));
    }
    if object::is_declared(o, m) {
        let i = choose|i: int| 0 <= i < o.symbols.len() && #[trigger] object::symbol_map(o, i) == Some(m);
        assert(o.symbols[i].name == Some(name));
    }
}

proof fn lemma_holds_program(o: object::ObjectView, name: Seq<char>)
    requires
        name == "tracepoint/sched/sched_switch"@ || name == "tracepoint/sched/sched_process_fork"@ || name
            == "tracepoint/sched/sched_process_exit"@ || name == "tracepoint/sched/sched_process_free"@,
    ensures
        object::has_program(o, name) <==> holds_program(o, name),
{
    reveal_strlit("tracepoint/");
    reveal_strlit("tracepoint/sched/sched_switch");
    reveal_strlit("tracepoint/sched/sched_process_fork");
    reveal_strlit("tracepoint/sched/sched_process_exit");
    reveal_strlit("tracepoint/sched/sched_process_free");
    assert(name.take(11) =~= "tracepoint/"@);
    object::a_program_is_found_by_its_name(o, name);
}

/// A failure is told as what it is: the map that was refused, the program, the tracepoint, or the
/// CPU on which a perf event could not be opened, attached to or enabled.
pub proof fn failures_name_their_place(v: LoaderView, event: Event, next: (LoaderView, ActionView))
    requires
        on_the_way(v),
        awaits(v.phase, event),
        leads_to(v, event, next),
        !is_success(v, event),
        v.object.sections.len() <= usize::MAX,
    ensures
        next.1 matches ActionView::Abort(why, _) && match v.phase {
            Phase::CreateMap => why == Failure::MapRefused(v.maps.len() as usize),
            Phase::LoadProgram => why == Failure::ProgramRefused(
                object::programs(v.object)[v.prog_fds.len() as int] as usize,
            ),
            Phase::FindTracepoint => why == Failure::NoTracepoint(
                object::programs(v.object)[v.prog_fds.len() - 1] as usize,
            ),
            Phase::OpenPerf(_) => why == Failure::PerfRefused(
                object::programs(v.object)[v.prog_fds.len() - 1] as usize,
                v.cpus[v.sec_perf.len() as int],
            ),
            Phase::Attach(i) => why == Failure::AttachRefused(
                object::programs(v.object)[v.prog_fds.len() - 1] as usize,
                v.cpus[i as int],
            ),
            Phase::Enable(i) => why == Failure::EnableRefused(
                object::programs(v.object)[v.prog_fds.len() - 1] as usize,
                v.cpus[i as int],
            ),
            Phase::Over => false,
        },
{
}

/// Loading starts with the whole object, its file and every CPU, and with nothing opened.
pub proof fn loading_starts_from_nothing(o: object::ObjectView, data: Seq<u8>, cpus: Seq<i32>)
    ensures
        started(o, data, cpus).object == o,
        started(o, data, cpus).data == data,
        started(o, data, cpus).cpus == cpus,
        started(o, data, cpus).phase is CreateMap,
        held(started(o, data, cpus)).len() == 0,
        on_the_way(started(o, data, cpus)),
{
}

} // verus!
