use fruits::assume_send::AssumeSend;
use fruits::reflection::{ReflTy, ReflTyId, ReflTyRegistry, ReflTyStruct};
use fruits::render_graph::{RenderGraphNodeBuilder, RenderGraphNodeInputDescriptor};
use fruits::serialization_examples::{ExampleEnum, ExampleStruct};
use fruits::thread_pool::{
    begin_execute, begin_take, is_finished, semaphore_release, semaphore_try_acquire, JobStage,
    JobState,
};
use fruits::ui::{GlobalDisableableComponent, UiBasis, UiDirection, UiExtent, UiUnit};

#[test]
fn axis_indices() {
    assert_eq!(UiDirection::Horizontal.to_axis_idx(), 0);
    assert_eq!(UiDirection::Vertical.to_axis_idx(), 1);
    assert!(!GlobalDisableableComponent::default().is_disabled);
    assert!(UiUnit::Px < UiUnit::Vmax);
}

#[test]
fn job_runs_once_and_hands_out_once() {
    let mut job = JobState::new(|| 6 * 7);
    assert!(!job.is_finished());
    assert_eq!(job.try_take_result(), None);
    job.try_execute();
    assert!(job.is_finished());
    job.try_execute();
    assert_eq!(job.try_take_result(), Some(42));
    assert_eq!(job.try_take_result(), None);
    assert!(job.is_finished());
}

#[test]
fn job_stage_steps() {
    assert_eq!(begin_execute(JobStage::Pending), (JobStage::Executing, true));
    assert_eq!(begin_execute(JobStage::Done), (JobStage::Done, false));
    assert_eq!(begin_take(JobStage::Done), (JobStage::Taken, true));
    assert_eq!(begin_take(JobStage::Executing), (JobStage::Taken, false));
    assert!(is_finished(JobStage::Taken));
    assert!(!is_finished(JobStage::Executing));
    assert_eq!(JobStage::from_code(JobStage::Done.code()), JobStage::Done);
    assert_eq!(semaphore_try_acquire(0), None);
    assert_eq!(semaphore_try_acquire(2), Some(1));
    assert_eq!(semaphore_release(0), 1);
}

#[test]
fn refl_registry_set_and_get() {
    let mut reg = ReflTyRegistry::new();
    reg.set(ReflTyId::new(String::from("u8")), ReflTy::Slice(ReflTyId::new(String::from("u16"))));
    reg.set(
        ReflTyId::new(String::from("Unit")),
        ReflTy::Struct(ReflTyStruct::Unit),
    );
    assert!(matches!(reg.get(&ReflTyId::new(String::from("Unit"))), Some(ReflTy::Struct(ReflTyStruct::Unit))));
    reg.set(ReflTyId::new(String::from("u8")), ReflTy::Array(ReflTyId::new(String::from("u8")), 3));
    match reg.get(&ReflTyId::new(String::from("u8"))) {
        Some(ReflTy::Array(id, 3)) => assert_eq!(id.as_str(), "u8"),
        _ => panic!("unexpected shape"),
    }
    assert!(reg.get(&ReflTyId::new(String::from("u32"))).is_none());
    assert!(ReflTyId::new(String::from("a")) == ReflTyId::new(String::from("a")));
}

#[test]
fn assume_send_round_trip() {
    assert_eq!(AssumeSend::new(5).into_inner(), 5);
}

#[test]
fn node_builder_collects_inputs_in_order() {
    let builder = RenderGraphNodeBuilder::new(String::from("main_pass"));
    let builder = builder.with(()).with(((),)).with(((), ()));
    let _ = builder.with(()).with(()).with(()).with(()).with(());
    let input = ((), ((),), ((), ())).into_input();
    assert_eq!(input, ((), ((),), ((), ())));
}

#[test]
fn serialization_examples_hold_their_fields() {
    let s = ExampleStruct { data: vec![1u8, 2], name: String::from("Ada"), age: 36 };
    assert_eq!(s.data, vec![1, 2]);
    assert_eq!(s.name, "Ada");
    assert_eq!(s.age, 36);
    let e: ExampleEnum<u8> = ExampleEnum::Struct { data: vec![3], name: String::from("B"), age: 1 };
    assert!(matches!(e, ExampleEnum::Struct { age: 1, .. }));
    assert!(matches!(ExampleEnum::<u8>::Empty, ExampleEnum::Empty));
}

#[test]
fn unit_bases() {
    assert_eq!(UiUnit::Px.basis(), UiBasis::Pixels);
    assert_eq!(UiUnit::Pw.basis(), UiBasis::Parent(UiExtent::Width));
    assert_eq!(UiUnit::Pmax.basis(), UiBasis::Parent(UiExtent::Max));
    assert_eq!(UiUnit::Vd.basis(), UiBasis::View(UiExtent::Both));
    assert_eq!(UiUnit::Vmin.basis(), UiBasis::View(UiExtent::Min));
}
