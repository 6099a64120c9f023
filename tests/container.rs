use std::cell::RefCell;
use std::rc::Rc;

use component_container::error::{ContainerError, Phase};
use component_container::graph::{build_plan, ComponentMeta, TypeKey};
use component_container::lifecycle::{after_start, reversed, stop_report, ComponentLifecycle, StartStep};
use component_container::repository::{ComponentFactory, ComponentRepository};

const A: TypeKey = 1;
const B: TypeKey = 2;
const C: TypeKey = 3;
const W: TypeKey = 23;
const X: TypeKey = 24;
const Y: TypeKey = 25;
const Z: TypeKey = 26;

type Log = Rc<RefCell<Vec<String>>>;

fn meta(type_id: TypeKey, deps: &[TypeKey], lifecycle: bool) -> ComponentMeta {
    ComponentMeta { type_id, depends_on: deps.to_vec(), lifecycle }
}

fn kind_of(t: TypeKey) -> u64 {
    t * 100
}

struct Probe {
    id: TypeKey,
    log: Log,
    fail_start: bool,
    fail_stop: bool,
}

impl ComponentLifecycle for Probe {
    fn start(&self) -> Result<(), String> {
        self.log.borrow_mut().push(format!("start {}", self.id));
        if self.fail_start {
            Err(format!("start of {} failed", self.id))
        } else {
            Ok(())
        }
    }

    fn stop(&self) -> Result<(), String> {
        self.log.borrow_mut().push(format!("stop {}", self.id));
        if self.fail_stop {
            Err(format!("stop of {} failed", self.id))
        } else {
            Ok(())
        }
    }
}

struct Factory {
    log: Log,
    built: Vec<TypeKey>,
    fail_build: Vec<TypeKey>,
    fail_start: Vec<TypeKey>,
    fail_stop: Vec<TypeKey>,
}

impl Factory {
    fn new() -> Factory {
        Factory {
            log: Rc::new(RefCell::new(Vec::new())),
            built: Vec::new(),
            fail_build: Vec::new(),
            fail_start: Vec::new(),
            fail_stop: Vec::new(),
        }
    }

    fn log(&self) -> Vec<String> {
        self.log.borrow().clone()
    }
}

impl ComponentFactory<Probe> for Factory {
    fn build(&mut self, type_id: TypeKey, repo: &ComponentRepository<Probe>) -> Result<(u64, Probe), String> {
        // Every dependency must already be there, of the kind it was built as.
        for m in repo.metas().iter().filter(|m| m.type_id == type_id) {
            for d in m.depends_on.iter() {
                let dep = repo.get(*d, kind_of(*d)).map_err(|_| format!("{} missing", d))?;
                assert_eq!(dep.id, *d);
            }
        }
        self.built.push(type_id);
        if self.fail_build.contains(&type_id) {
            return Err(format!("cannot build {}", type_id));
        }
        let probe = Probe {
            id: type_id,
            log: self.log.clone(),
            fail_start: self.fail_start.contains(&type_id),
            fail_stop: self.fail_stop.contains(&type_id),
        };
        Ok((kind_of(type_id), probe))
    }
}

fn repo_of(metas: Vec<ComponentMeta>) -> ComponentRepository<Probe> {
    let mut repo = ComponentRepository::new();
    for m in metas {
        repo.register(m).unwrap();
    }
    repo
}

fn position(plan: &[TypeKey], t: TypeKey) -> usize {
    plan.iter().position(|x| *x == t).unwrap()
}

#[test]
fn lib_it_works() {
    assert_eq!(2 + 2, 4);
}

#[test]
fn scenario_a_plan_is_a_b_c() {
    let metas = vec![meta(A, &[], false), meta(B, &[A], false), meta(C, &[A, B], false)];
    assert_eq!(build_plan(&metas).unwrap(), vec![A, B, C]);
    let mut repo = repo_of(metas);
    let mut f = Factory::new();
    repo.compose(&mut f).unwrap();
    assert_eq!(repo.plan(), &vec![A, B, C]);
    assert_eq!(f.built, vec![A, B, C]);
    assert_eq!(repo.phase(), Phase::Composed);
}

#[test]
fn scenario_a_registered_in_reverse_order() {
    let metas = vec![meta(C, &[A, B], false), meta(B, &[A], false), meta(A, &[], false)];
    assert_eq!(build_plan(&metas).unwrap(), vec![A, B, C]);
}

#[test]
fn plan_is_depth_first_in_registration_order() {
    let metas = vec![meta(B, &[A], false), meta(C, &[], false), meta(A, &[], false)];
    assert_eq!(build_plan(&metas).unwrap(), vec![A, B, C]);
    let metas = vec![meta(X, &[B, A], false), meta(A, &[], false), meta(B, &[], false)];
    assert_eq!(build_plan(&metas).unwrap(), vec![B, A, X]);
}

#[test]
fn plan_respects_every_edge() {
    let metas = vec![
        meta(10, &[11, 12], false),
        meta(11, &[13], false),
        meta(12, &[13, 11], false),
        meta(13, &[], false),
        meta(14, &[10, 13], false),
    ];
    let plan = build_plan(&metas).unwrap();
    assert_eq!(plan.len(), metas.len());
    for m in &metas {
        for d in &m.depends_on {
            assert!(position(&plan, *d) < position(&plan, m.type_id));
        }
    }
}

#[test]
fn empty_plan() {
    assert_eq!(build_plan(&Vec::new()).unwrap(), Vec::<TypeKey>::new());
}

#[test]
fn scenario_b_cycle_lists_x_and_y() {
    let metas = vec![meta(X, &[Y], false), meta(Y, &[X], false)];
    match build_plan(&metas) {
        Err(ContainerError::CircularDependency(c)) => assert_eq!(c, vec![X, Y]),
        other => panic!("unexpected {:?}", other.map(|_| ())),
    }
    let mut repo = repo_of(metas);
    let mut f = Factory::new();
    match repo.compose(&mut f) {
        Err(ContainerError::CircularDependency(c)) => assert_eq!(c, vec![X, Y]),
        other => panic!("unexpected {:?}", other),
    }
    assert!(f.built.is_empty());
    assert!(repo.slots().is_empty());
    assert_eq!(repo.phase(), Phase::Registering);
}

#[test]
fn self_dependency_is_a_cycle() {
    let metas = vec![meta(A, &[], false), meta(X, &[X], false)];
    match build_plan(&metas) {
        Err(ContainerError::CircularDependency(c)) => assert_eq!(c, vec![X]),
        other => panic!("unexpected {:?}", other.map(|_| ())),
    }
}

#[test]
fn longer_cycle_is_reported_from_its_entry() {
    let metas = vec![meta(A, &[B], false), meta(B, &[C], false), meta(C, &[X], false), meta(X, &[B], false)];
    match build_plan(&metas) {
        Err(ContainerError::CircularDependency(c)) => assert_eq!(c, vec![B, C, X]),
        other => panic!("unexpected {:?}", other.map(|_| ())),
    }
}

#[test]
fn scenario_c_missing_dependency() {
    let metas = vec![meta(A, &[], false), meta(Z, &[A, W], false)];
    let mut repo = repo_of(metas);
    let mut f = Factory::new();
    match repo.compose(&mut f) {
        Err(ContainerError::MissingDependency { requester, missing }) => {
            assert_eq!(requester, Z);
            assert_eq!(missing, W);
        }
        other => panic!("unexpected {:?}", other),
    }
    assert!(f.built.is_empty());
}

#[test]
fn missing_dependency_is_reported_before_a_cycle() {
    let metas = vec![meta(X, &[Y], false), meta(Y, &[X, W], false)];
    match build_plan(&metas) {
        Err(ContainerError::MissingDependency { requester, missing }) => {
            assert_eq!((requester, missing), (Y, W));
        }
        other => panic!("unexpected {:?}", other.map(|_| ())),
    }
}

#[test]
fn duplicate_registration_is_refused() {
    let mut repo: ComponentRepository<Probe> = ComponentRepository::new();
    repo.register(meta(A, &[], false)).unwrap();
    match repo.register(meta(A, &[B], true)) {
        Err(ContainerError::DuplicateRegistration(t)) => assert_eq!(t, A),
        other => panic!("unexpected {:?}", other),
    }
    assert_eq!(repo.metas().len(), 1);
}

#[test]
fn construction_failure_aborts_composition() {
    let mut repo = repo_of(vec![meta(A, &[], false), meta(B, &[A], false), meta(C, &[B], false)]);
    let mut f = Factory::new();
    f.fail_build.push(B);
    match repo.compose(&mut f) {
        Err(ContainerError::ConstructionFailed { type_id, cause }) => {
            assert_eq!(type_id, B);
            assert_eq!(cause, "cannot build 2");
        }
        other => panic!("unexpected {:?}", other),
    }
    assert_eq!(f.built, vec![A, B]);
    assert!(repo.slots().is_empty());
    assert_eq!(repo.phase(), Phase::Registering);
}

#[test]
fn scenario_d_start_failure_stops_started() {
    let mut repo = repo_of(vec![meta(A, &[], true), meta(B, &[A], true)]);
    let mut f = Factory::new();
    f.fail_start.push(B);
    repo.compose(&mut f).unwrap();
    match repo.start_all() {
        Err(ContainerError::StartFailed { type_id, cause }) => {
            assert_eq!(type_id, B);
            assert_eq!(cause, "start of 2 failed");
        }
        other => panic!("unexpected {:?}", other),
    }
    assert_eq!(f.log(), vec!["start 1", "start 2", "stop 1"]);
    assert_eq!(f.log().iter().filter(|l| *l == "stop 1").count(), 1);
    assert_eq!(repo.stop_calls(), &vec![A]);
    assert_eq!(repo.phase(), Phase::Stopped);
}

#[test]
fn scenario_e_wrong_kind_is_a_downcast_mismatch() {
    let mut repo = repo_of(vec![meta(A, &[], false)]);
    let mut f = Factory::new();
    repo.compose(&mut f).unwrap();
    match repo.get(A, kind_of(B)) {
        Err(ContainerError::DowncastMismatch { requested, actual }) => {
            assert_eq!(requested, kind_of(B));
            assert_eq!(actual, kind_of(A));
        }
        other => panic!("unexpected {:?}", other.map(|_| ())),
    }
    match repo.get(B, kind_of(B)) {
        Err(ContainerError::NotFound(t)) => assert_eq!(t, B),
        other => panic!("unexpected {:?}", other.map(|_| ())),
    }
    assert_eq!(repo.get(A, kind_of(A)).unwrap().id, A);
    let slot = repo.get_by_type_id(A).unwrap();
    assert_eq!(slot.kind, kind_of(A));
    assert!(matches!(slot.downcast(7), Err(ContainerError::DowncastMismatch { requested: 7, actual: 100 })));
}

#[test]
fn stop_reverses_start() {
    let mut repo = repo_of(vec![
        meta(C, &[A, B], true),
        meta(B, &[A], true),
        meta(X, &[], false),
        meta(A, &[], true),
    ]);
    let mut f = Factory::new();
    repo.compose(&mut f).unwrap();
    repo.start_all().unwrap();
    assert_eq!(repo.start_calls(), &vec![A, B, C]);
    repo.stop_all().unwrap();
    assert_eq!(repo.stop_calls(), &vec![C, B, A]);
    assert_eq!(f.log(), vec!["start 1", "start 2", "start 3", "stop 3", "stop 2", "stop 1"]);
    assert_eq!(repo.phase(), Phase::Stopped);
}

#[test]
fn stop_failures_are_collected() {
    let mut repo = repo_of(vec![meta(A, &[], true), meta(B, &[A], true), meta(C, &[B], true)]);
    let mut f = Factory::new();
    f.fail_stop.push(C);
    f.fail_stop.push(A);
    repo.compose(&mut f).unwrap();
    repo.start_all().unwrap();
    match repo.stop_all() {
        Err(ContainerError::StopFailed(fs)) => {
            let ids: Vec<TypeKey> = fs.iter().map(|f| f.type_id).collect();
            assert_eq!(ids, vec![C, A]);
            assert_eq!(fs[0].cause, "stop of 3 failed");
        }
        other => panic!("unexpected {:?}", other),
    }
    assert_eq!(repo.stop_calls(), &vec![C, B, A]);
}

#[test]
fn round_trip_without_hooks() {
    let mut repo = repo_of(vec![meta(A, &[], false)]);
    let mut f = Factory::new();
    repo.compose(&mut f).unwrap();
    repo.start_all().unwrap();
    repo.stop_all().unwrap();
    assert!(f.log().is_empty());
    assert!(repo.start_calls().is_empty());
    assert!(repo.stop_calls().is_empty());
    assert_eq!(repo.phase(), Phase::Stopped);
}

#[test]
fn misuse_is_rejected() {
    let mut repo = repo_of(vec![meta(A, &[], true)]);
    let mut f = Factory::new();
    assert!(matches!(repo.start_all(), Err(ContainerError::LifecycleMisuse(Phase::Registering))));
    assert!(matches!(repo.stop_all(), Err(ContainerError::LifecycleMisuse(Phase::Registering))));
    repo.compose(&mut f).unwrap();
    assert!(matches!(repo.compose(&mut f), Err(ContainerError::LifecycleMisuse(Phase::Composed))));
    assert!(matches!(repo.register(meta(B, &[], false)), Err(ContainerError::LifecycleMisuse(Phase::Composed))));
    repo.start_all().unwrap();
    assert!(matches!(repo.start_all(), Err(ContainerError::LifecycleMisuse(Phase::Started))));
    repo.stop_all().unwrap();
    assert!(matches!(repo.stop_all(), Err(ContainerError::LifecycleMisuse(Phase::Stopped))));
    assert_eq!(f.log(), vec!["start 1", "stop 1"]);
}

#[test]
fn start_step_goes_on_or_aborts() {
    assert!(matches!(after_start(&vec![0, 2], B, Ok(())), StartStep::Next));
    match after_start(&vec![0, 2, 3], C, Err("down".to_string())) {
        StartStep::Abort { stop, error } => {
            assert_eq!(stop, vec![3, 2, 0]);
            match error {
                ContainerError::StartFailed { type_id, cause } => {
                    assert_eq!(type_id, C);
                    assert_eq!(cause, "down");
                }
                other => panic!("unexpected {:?}", other),
            }
        }
        StartStep::Next => panic!("a failed start must abort"),
    }
    match after_start(&vec![], A, Err("x".to_string())) {
        StartStep::Abort { stop, .. } => assert!(stop.is_empty()),
        StartStep::Next => panic!("a failed start must abort"),
    }
}

#[test]
fn stop_report_lists_every_failure_in_order() {
    assert!(stop_report(&vec![], &vec![]).is_ok());
    assert!(stop_report(&vec![A, B], &vec![Ok(()), Ok(())]).is_ok());
    let res = vec![Err("a".to_string()), Ok(()), Err("c".to_string())];
    match stop_report(&vec![C, B, A], &res) {
        Err(ContainerError::StopFailed(fs)) => {
            let got: Vec<(TypeKey, String)> = fs.into_iter().map(|f| (f.type_id, f.cause)).collect();
            assert_eq!(got, vec![(C, "a".to_string()), (A, "c".to_string())]);
        }
        other => panic!("unexpected {:?}", other),
    }
    assert_eq!(reversed(&vec![4, 5, 6]), vec![6, 5, 4]);
}
