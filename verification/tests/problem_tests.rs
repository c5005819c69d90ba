use esp_idf_part::{DataType, Flags, SubType, Type};
use memsolve::bin::{Bin, MemoryBin};
use memsolve::chip::Chip;
use memsolve::layout::Layout;
use memsolve::placement::{extract_placements, next_multiple, placement_problem};
use memsolve::problem::{LpFailure, Relation, Sense, SolveReport, SolvedValue, VarKind};
use memsolve::resolve::ResolveRequest;
use memsolve::section::{Section, SectionError};
use memsolve::solver::{free_problem, free_readout, BuildFailure, SolverError};
use memsolve::{Memory, MemoryError};

fn chosen(positive: &[bool]) -> Vec<SolvedValue> {
    positive
        .iter()
        .map(|&p| SolvedValue { positive: p, whole: Some(u64::from(p)) })
        .collect()
}

#[test]
fn next_multiple_rounds_up() {
    assert_eq!(next_multiple(0, 4), Some(0));
    assert_eq!(next_multiple(5, 4), Some(8));
    assert_eq!(next_multiple(8, 4), Some(8));
    assert_eq!(next_multiple(0x1_0001, 0x1_0000), Some(0x2_0000));
    assert_eq!(next_multiple(u64::MAX, 2), None);
}

#[test]
fn solver_errors_map_to_memory_errors() {
    let cases = [
        (SolverError::Solver(LpFailure::Infeasible), MemoryError::UnresolvableLayout),
        (SolverError::TooManyFlashPages, MemoryError::AddressTooLarge),
        (SolverError::ConversionError, MemoryError::AddressTooLarge),
        (SolverError::NoAllocationRegions, MemoryError::MemoryTooSmall),
        (
            SolverError::SectionError(SectionError::NoSizeBound),
            MemoryError::SectionError(SectionError::NoSizeBound),
        ),
        (SolverError::TimeExceeded, MemoryError::TimeExceeded),
    ];
    for (solver, memory) in cases {
        assert_eq!(MemoryError::from_solver(solver), memory);
    }
}

#[test]
fn free_problem_shares_pages_by_relative_pages() {
    let sections: Vec<Section<()>> = (0..3)
        .map(|i| {
            Section::new(&format!("m{i}"))
                .unwrap()
                .set_maximize(true)
                .set_relative_pages(i)
        })
        .collect();
    let problem = free_problem(&sections, 10).unwrap();
    assert_eq!(problem.sense, Sense::Maximize);
    assert_eq!(problem.time_limit_ms, None);
    assert_eq!(problem.variables.len(), 3);
    for v in &problem.variables {
        assert_eq!(v.cost, 1);
        assert_eq!(v.kind, VarKind::Integer(0, 10));
    }
    // three lower bounds, the total, and one equation per pair
    assert_eq!(problem.constraints.len(), 7);
    for (k, c) in problem.constraints[..3].iter().enumerate() {
        assert_eq!(c.terms, vec![(k, 1)]);
        assert_eq!(c.relation, Relation::AtLeast);
        assert_eq!(c.rhs, 1);
    }
    assert_eq!(problem.constraints[3].terms, vec![(0, 1), (1, 1), (2, 1)]);
    assert_eq!(problem.constraints[3].relation, Relation::AtMost);
    assert_eq!(problem.constraints[3].rhs, 10);
    let pairs: Vec<(Vec<(usize, i64)>, i64)> = problem.constraints[4..]
        .iter()
        .map(|c| {
            assert_eq!(c.relation, Relation::Equal);
            (c.terms.clone(), c.rhs)
        })
        .collect();
    assert_eq!(
        pairs,
        vec![
            (vec![(0, 1), (1, -1)], -1),
            (vec![(0, 1), (2, -1)], -2),
            (vec![(1, 1), (2, -1)], -1),
        ]
    );
}

#[test]
fn free_problem_lower_bound_is_requested_pages() {
    let sections = vec![Section::new("a").unwrap().set_maximize(true).set_pages(4)];
    let problem = free_problem(&sections, 9).unwrap();
    assert_eq!(problem.constraints[0].rhs, 4);
    assert_eq!(problem.constraints.len(), 2);
}

#[test]
fn free_problem_refuses_too_many_pages() {
    let sections = vec![Section::new("a").unwrap().set_maximize(true)];
    assert_eq!(
        free_problem(&sections, 1 << 31),
        Err(BuildFailure::Rejected(SolverError::TooManyFlashPages))
    );
    let none: Vec<Section<()>> = Vec::new();
    assert_eq!(free_problem(&none, 1 << 31).unwrap().variables.len(), 0);
    assert_eq!(
        free_problem(&none, (1 << 53) + 1),
        Err(BuildFailure::Rejected(SolverError::TooManyFlashPages))
    );
}

#[test]
fn free_readout_sets_pages_or_fails() {
    let sections = vec![
        Section::new("a").unwrap().set_maximize(true),
        Section::new("b").unwrap().set_maximize(true),
    ];
    let values = vec![
        SolvedValue { positive: true, whole: Some(3) },
        SolvedValue { positive: true, whole: Some(5) },
    ];
    let read = free_readout(&sections, &values).unwrap();
    assert_eq!(read[0].pages(), Some(3));
    assert_eq!(read[1].pages(), Some(5));
    assert_eq!(read[1].name(), "b");
    let bad = vec![
        SolvedValue { positive: true, whole: Some(3) },
        SolvedValue { positive: true, whole: None },
    ];
    assert_eq!(free_readout(&sections, &bad).unwrap_err(), SolverError::ConversionError);
}

#[test]
fn placement_without_regions_is_refused() {
    let sections = vec![Section::new("a").unwrap().set_pages(1)];
    let err = placement_problem(&sections, &Bin::new(Vec::new())).unwrap_err();
    assert_eq!(err, BuildFailure::Rejected(SolverError::NoAllocationRegions));
}

fn two_section_model() -> (Vec<Section<()>>, memsolve::placement::PlacementModel) {
    let sections = vec![
        Section::new("a").unwrap().set_pages(2),
        Section::new("b").unwrap().set_pages(1),
    ];
    let bins = Bin::new(vec![MemoryBin { start_address: 0, end_address: 4, page_size: 1 }]);
    let model = placement_problem(&sections, &bins).unwrap();
    (sections, model)
}

#[test]
fn placement_problem_options_and_constraints() {
    let (_, model) = two_section_model();
    let options: Vec<(usize, u64, u64)> = model
        .options
        .iter()
        .map(|o| (o.section, o.address, o.end_address))
        .collect();
    assert_eq!(
        options,
        vec![(0, 0, 2), (0, 1, 3), (0, 2, 4), (1, 0, 1), (1, 1, 2), (1, 2, 3), (1, 3, 4)]
    );
    let problem = &model.problem;
    assert_eq!(problem.sense, Sense::Minimize);
    assert_eq!(problem.time_limit_ms, Some(100));
    let costs: Vec<i64> = problem.variables.iter().map(|v| v.cost).collect();
    assert_eq!(costs, vec![0, 1, 2, 0, 1, 2, 3]);
    assert!(problem.variables.iter().all(|v| v.kind == VarKind::Binary));
    let rows: Vec<(Vec<(usize, i64)>, Relation, i64)> = problem
        .constraints
        .iter()
        .map(|c| (c.terms.clone(), c.relation, c.rhs))
        .collect();
    assert_eq!(
        rows,
        vec![
            (vec![(0, 1), (1, 1), (2, 1)], Relation::Equal, 1),
            (vec![(3, 1), (4, 1), (5, 1), (6, 1)], Relation::Equal, 1),
            (vec![(0, 1), (3, 1)], Relation::AtMost, 1),
            (vec![(4, 1), (0, 2)], Relation::AtMost, 2),
            (vec![(1, 1), (4, 1)], Relation::AtMost, 1),
            (vec![(5, 1), (1, 2)], Relation::AtMost, 2),
            (vec![(2, 1), (5, 1)], Relation::AtMost, 1),
            (vec![(6, 1), (2, 2)], Relation::AtMost, 2),
        ]
    );
    let groups: Vec<(u64, Vec<usize>)> =
        model.groups.iter().map(|g| (g.address, g.options.clone())).collect();
    assert_eq!(groups, vec![(0, vec![0, 3]), (1, vec![1, 4]), (2, vec![2, 5]), (3, vec![6])]);
}

#[test]
fn extracted_placements_are_in_address_order() {
    let (sections, model) = two_section_model();
    let values = chosen(&[false, true, false, true, false, false, false]);
    let placed = extract_placements(&sections, &model.options, &model.groups, &values);
    let got: Vec<(&str, u64, u64, u64)> = placed
        .iter()
        .map(|s| (s.name.as_str(), s.address, s.size, s.pages))
        .collect();
    assert_eq!(got, vec![("b", 0, 1, 1), ("a", 1, 2, 2)]);
}

fn placing_memory() -> Memory<()> {
    let chip = Chip::new(1, 0, 4).unwrap();
    let mut memory = Memory::new(chip);
    memory.add_section(Section::new("a").unwrap().set_pages(2));
    memory
}

fn to_placement(memory: &Memory<()>) -> (memsolve::resolve::Resolver<()>, ResolveRequest<()>) {
    let (mut resolver, request) = memory.start_resolve();
    let ResolveRequest::SizeMaximized(problem) = request else {
        panic!("expected the sizing problem")
    };
    assert_eq!(problem.variables.len(), 0);
    let request = resolver.step(SolveReport::Solved(Vec::new()));
    (resolver, request)
}

#[test]
fn interrupted_placement_is_time_exceeded() {
    let memory = placing_memory();
    let (mut resolver, request) = to_placement(&memory);
    assert!(matches!(request, ResolveRequest::Place(_)));
    match resolver.step(SolveReport::Interrupted) {
        ResolveRequest::Finished(Err(e)) => assert_eq!(e, MemoryError::TimeExceeded),
        _ => panic!("expected an error"),
    }
    assert!(resolver.is_done());
    assert!(matches!(resolver.step(SolveReport::Interrupted), ResolveRequest::Abort));
}

#[test]
fn failed_placement_is_unresolvable() {
    let memory = placing_memory();
    let (mut resolver, _) = to_placement(&memory);
    match resolver.step(SolveReport::Failed(LpFailure::Unbounded)) {
        ResolveRequest::Finished(Err(e)) => assert_eq!(e, MemoryError::UnresolvableLayout),
        _ => panic!("expected an error"),
    }
}

#[test]
fn infeasible_placement_without_maximized_sections_is_unresolvable() {
    let memory = placing_memory();
    let (mut resolver, _) = to_placement(&memory);
    match resolver.step(SolveReport::Failed(LpFailure::Infeasible)) {
        ResolveRequest::Finished(Err(e)) => assert_eq!(e, MemoryError::UnresolvableLayout),
        _ => panic!("expected an error"),
    }
    assert!(resolver.is_done());
}

#[test]
fn infeasible_placement_shrinks_the_maximized_sections() {
    let chip = Chip::new(1, 0, 8).unwrap();
    let mut memory = Memory::new(chip);
    memory.add_section(Section::new("m").unwrap().set_maximize(true));
    let (mut resolver, request) = memory.start_resolve();
    let ResolveRequest::SizeMaximized(problem) = request else { panic!("expected sizing") };
    // all 8 pages are free
    assert_eq!(problem.constraints[1].rhs, 8);
    let request = resolver.step(SolveReport::Solved(vec![SolvedValue { positive: true, whole: Some(8) }]));
    assert!(matches!(request, ResolveRequest::Place(_)));
    let request = resolver.step(SolveReport::Failed(LpFailure::Infeasible));
    let ResolveRequest::SizeMaximized(problem) = request else { panic!("expected sizing") };
    // one page less than was given out
    assert_eq!(problem.constraints[1].rhs, 7);
}

#[test]
fn sized_section_larger_than_the_chip() {
    let chip = Chip::new(1, 0, 30).unwrap();
    let mut memory = Memory::new(chip);
    memory.add_section(Section::new("big").unwrap().set_size(40));
    let (resolver, request) = memory.start_resolve();
    match request {
        ResolveRequest::Finished(Err(e)) => assert_eq!(e, MemoryError::MemoryTooSmall),
        _ => panic!("expected an error"),
    }
    assert!(resolver.is_done());
}

#[test]
fn short_solution_aborts() {
    let memory = placing_memory();
    let (mut resolver, _) = to_placement(&memory);
    assert!(matches!(resolver.step(SolveReport::Solved(Vec::new())), ResolveRequest::Abort));
}

#[test]
fn solution_gives_the_layout() {
    let memory = placing_memory();
    let (mut resolver, request) = to_placement(&memory);
    let ResolveRequest::Place(problem) = request else { panic!("expected the placement") };
    // options at 0, 1 and 2; choose 1
    assert_eq!(problem.variables.len(), 3);
    match resolver.step(SolveReport::Solved(chosen(&[false, true, false]))) {
        ResolveRequest::Finished(Ok(layout)) => {
            assert_eq!(layout.len(), 1);
            assert_eq!(layout.as_slice()[0].address, 1);
            assert_eq!(layout.as_slice()[0].size, 2);
        }
        _ => panic!("expected a layout"),
    }
}

#[test]
fn esp_metadata_and_flags() {
    let section = Section::new("nvs")
        .unwrap()
        .set_size(0x6000)
        .add_esp_metadata(Type::Data, SubType::Data(DataType::Nvs));
    assert_eq!(section.metadata().flags, Flags::empty());
    let section = section.set_esp_flags(Flags::ENCRYPTED);
    assert_eq!(section.metadata().flags, Flags::ENCRYPTED);
    assert_eq!(section.metadata().partition_type, Type::Data);
    assert_eq!(section.size(), Some(0x6000));
    let layout = Layout::<()>::empty().with_esp_metadata();
    assert!(layout.is_empty());
    let memory = Memory::<()>::new(Chip::new(1, 0, 4).unwrap()).with_esp_metadata();
    assert!(memory.layout().is_empty());
}

#[test]
fn conversions_into_library_types() {
    assert_eq!(MemoryError::from(SolverError::NoAllocationRegions), MemoryError::MemoryTooSmall);
    let err: MemoryError = SolverError::TimeExceeded.into();
    assert_eq!(err, MemoryError::TimeExceeded);
    let section = memsolve::section::ResolvedSection {
        name: "a".to_string(),
        pages: 1,
        size: 4,
        address: 8,
        linker_name: "a".to_string(),
        metadata: (),
    };
    let layout = memsolve::layout::ResolvedLayout::from(vec![section]);
    assert_eq!(layout.len(), 1);
    assert_eq!(layout.as_slice()[0].linker_name, "a");
    assert_eq!(layout.as_slice()[0].address, 8);
}

#[test]
fn merging_an_empty_layout() {
    let mut layout = Layout::new(vec![
        Section::new("a").unwrap().set_pages(2),
        Section::new("b").unwrap().set_size(10),
    ]);
    let copy = layout.clone();
    layout.merge(&Layout::empty());
    assert_eq!(layout, copy);
    let mut empty: Layout<()> = Layout::empty();
    empty.merge(&copy);
    assert_eq!(empty, copy);
}

#[test]
fn pages_without_a_size_need_no_page_size() {
    let section = Section::new("a").unwrap().set_pages(3);
    assert_eq!(section.pages_required(0), 3);
    assert_eq!(section.required_pages(0), Ok(3));
    let none = Section::new("b").unwrap();
    assert_eq!(none.pages_required(0), 0);
    assert_eq!(none.required_pages(0), Err(SectionError::NoSizeBound));
}

#[test]
fn end_address_is_the_last_address() {
    let chip = Chip::new(4, 0x100, 16).unwrap();
    assert_eq!(chip.end_address(), 0x10F);
    let chip = Chip::new(1, 0, 1).unwrap();
    assert_eq!(chip.end_address(), 0);
    let empty = Chip::new(4, 0x100, 0).unwrap();
    assert_eq!(empty.end_address(), 0x100);
}

#[test]
fn maximized_minimum_is_not_counted_twice() {
    let chip = Chip::new(1, 0, 10).unwrap();
    let mut memory = Memory::new(chip);
    memory.add_section(Section::new("m").unwrap().set_maximize(true).set_pages(2));
    let (_, request) = memory.start_resolve();
    let ResolveRequest::SizeMaximized(problem) = request else { panic!("expected sizing") };
    // the section may take all 10 pages, at least its 2
    assert_eq!(problem.constraints[0].rhs, 2);
    assert_eq!(problem.constraints[1].rhs, 10);
    assert_eq!(problem.variables[0].kind, VarKind::Integer(0, 10));
}
