use lib_rbxcli::require::{ModuleCache, ModuleCacheEntry, ModuleValue, RequireStep};

fn value(handle: u64) -> ModuleValue {
    ModuleValue { handle }
}

#[test]
fn a_new_cache_holds_nothing() {
    let cache = ModuleCache::new();
    assert_eq!(cache.entry(0), None);
    assert_eq!(cache.pending(), Vec::<usize>::new());
}

#[test]
fn the_first_request_makes_the_host_run_the_module() {
    let mut cache = ModuleCache::new();
    assert_eq!(cache.begin_require(3), RequireStep::Execute);
    assert_eq!(cache.entry(3), Some(ModuleCacheEntry::Pending));
    assert_eq!(cache.pending(), vec![3]);
}

#[test]
fn a_loaded_module_gives_the_same_value_and_runs_once() {
    let mut cache = ModuleCache::new();
    let mut runs = 0;
    for _ in 0..5 {
        match cache.begin_require(7) {
            RequireStep::Execute => {
                runs += 1;
                assert!(cache.finish_require(7, Ok(value(41))));
            }
            RequireStep::Ready(got) => assert_eq!(got, value(41)),
            other => panic!("unexpected step {:?}", other),
        }
    }
    assert_eq!(runs, 1);
    assert_eq!(cache.entry(7), Some(ModuleCacheEntry::Ready(value(41))));
    assert_eq!(cache.pending(), Vec::<usize>::new());
}

#[test]
fn a_second_report_does_not_replace_the_first() {
    let mut cache = ModuleCache::new();
    assert_eq!(cache.begin_require(1), RequireStep::Execute);
    assert!(cache.finish_require(1, Ok(value(10))));
    assert!(!cache.finish_require(1, Ok(value(11))));
    assert!(!cache.finish_require(1, Err("late".to_string())));
    assert_eq!(cache.begin_require(1), RequireStep::Ready(value(10)));
}

#[test]
fn a_report_for_a_module_never_requested_is_not_taken() {
    let mut cache = ModuleCache::new();
    assert!(!cache.finish_require(4, Ok(value(1))));
    assert_eq!(cache.entry(4), None);
    assert_eq!(cache.begin_require(4), RequireStep::Execute);
}

#[test]
fn a_failed_module_stays_failed() {
    let mut cache = ModuleCache::new();
    assert_eq!(cache.begin_require(2), RequireStep::Execute);
    assert!(cache.finish_require(2, Err("boom".to_string())));
    assert_eq!(cache.entry(2), Some(ModuleCacheEntry::Failed("boom".to_string())));
    assert_eq!(cache.begin_require(2), RequireStep::Failed("boom".to_string()));
    assert_eq!(cache.begin_require(2), RequireStep::Failed("boom".to_string()));
    assert_eq!(cache.pending(), Vec::<usize>::new());
}

#[test]
fn two_modules_that_require_each_other_close_a_cycle() {
    let mut cache = ModuleCache::new();
    assert_eq!(cache.begin_require(0), RequireStep::Execute);
    assert_eq!(cache.begin_require(1), RequireStep::Execute);
    assert_eq!(cache.begin_require(0), RequireStep::Cycle(vec![0, 1]));
    assert_eq!(cache.begin_require(0), RequireStep::Cycle(vec![0, 1]));
    assert_eq!(cache.begin_require(1), RequireStep::Cycle(vec![0, 1]));
    assert!(cache.finish_require(1, Err("cycle".to_string())));
    assert!(cache.finish_require(0, Err("cycle".to_string())));
    assert_eq!(cache.begin_require(0), RequireStep::Failed("cycle".to_string()));
    assert_eq!(cache.begin_require(1), RequireStep::Failed("cycle".to_string()));
}

#[test]
fn a_module_that_requires_itself_closes_a_cycle() {
    let mut cache = ModuleCache::new();
    assert_eq!(cache.begin_require(5), RequireStep::Execute);
    assert_eq!(cache.begin_require(5), RequireStep::Cycle(vec![5]));
}

#[test]
fn loads_may_end_in_any_order() {
    let mut cache = ModuleCache::new();
    assert_eq!(cache.begin_require(1), RequireStep::Execute);
    assert_eq!(cache.begin_require(2), RequireStep::Execute);
    assert_eq!(cache.begin_require(3), RequireStep::Execute);
    assert_eq!(cache.pending(), vec![1, 2, 3]);
    assert!(cache.finish_require(2, Ok(value(20))));
    assert_eq!(cache.pending(), vec![1, 3]);
    assert_eq!(cache.begin_require(1), RequireStep::Cycle(vec![1, 3]));
    assert!(cache.finish_require(1, Ok(value(10))));
    assert_eq!(cache.pending(), vec![3]);
    assert_eq!(cache.begin_require(2), RequireStep::Ready(value(20)));
    assert_eq!(cache.begin_require(1), RequireStep::Ready(value(10)));
}
