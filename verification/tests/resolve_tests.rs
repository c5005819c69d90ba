use conv::ApproxInto;
use memsolve::chip::{Chip, PageSize};
use memsolve::layout::ResolvedLayout;
use memsolve::problem::{
    LinearProblem, LpFailure, Relation, Sense, SolveReport, SolvedValue, VarKind,
};
use memsolve::resolve::ResolveRequest;
use memsolve::section::{ResolvedSection, Section};
use memsolve::solver::{free_problem, free_readout};
use memsolve::{Memory, MemoryError};
use esp_idf_part::{AppType, DataType, SubType, Type};
use microlp::{ComparisonOp, OptimizationDirection, Problem, SolveOutcome};

fn run_solver(problem: &LinearProblem) -> SolveReport {
    let direction = match problem.sense {
        Sense::Minimize => OptimizationDirection::Minimize,
        Sense::Maximize => OptimizationDirection::Maximize,
    };
    let mut lp = Problem::new(direction);
    if let Some(ms) = problem.time_limit_ms {
        lp.set_time_limit(std::time::Duration::from_millis(ms));
    }
    let vars: Vec<microlp::Variable> = problem
        .variables
        .iter()
        .map(|v| match v.kind {
            VarKind::Binary => lp.add_binary_var(v.cost as f64),
            VarKind::Integer(lo, hi) => lp.add_integer_var(v.cost as f64, (lo as i32, hi as i32)),
        })
        .collect();
    for c in &problem.constraints {
        let expr: Vec<(microlp::Variable, f64)> =
            c.terms.iter().map(|&(k, a)| (vars[k], a as f64)).collect();
        let op = match c.relation {
            Relation::Equal => ComparisonOp::Eq,
            Relation::AtMost => ComparisonOp::Le,
            Relation::AtLeast => ComparisonOp::Ge,
        };
        lp.add_constraint(expr, op, c.rhs as f64);
    }
    match lp.solve() {
        Ok(SolveOutcome::Solution(solution)) => SolveReport::Solved(
            vars.iter()
                .map(|&v| {
                    let x = solution.var_value(v);
                    SolvedValue {
                        positive: x > 0.0,
                        whole: ApproxInto::<u64>::approx_into(x).ok(),
                    }
                })
                .collect(),
        ),
        Ok(SolveOutcome::Interrupted(_)) => SolveReport::Interrupted,
        Err(microlp::Error::Infeasible) => SolveReport::Failed(LpFailure::Infeasible),
        Err(microlp::Error::Unbounded) => SolveReport::Failed(LpFailure::Unbounded),
        Err(_) => SolveReport::Failed(LpFailure::Other),
    }
}

fn resolve<M: Clone>(memory: &Memory<M>) -> Result<ResolvedLayout<M>, MemoryError> {
    let (mut resolver, mut request) = memory.start_resolve();
    loop {
        request = match request {
            ResolveRequest::SizeMaximized(p) | ResolveRequest::Place(p) => {
                resolver.step(run_solver(&p))
            }
            ResolveRequest::Finished(result) => return result,
            ResolveRequest::Abort => panic!("resolution aborted"),
        };
    }
}

fn sections<M: Clone>(layout: &ResolvedLayout<M>) -> &[ResolvedSection<M>] {
    layout.as_slice()
}

#[test]
fn solver() {
    let chip = Chip::new(1000, 0, 20000).unwrap();
    let mut memory = Memory::new(chip);
    [1000, 5000]
        .into_iter()
        .map(|i| {
            Section::new(&format!("fixed{i}"))
                .unwrap()
                .set_address(i)
                .set_size(1000)
                .set_pages(1)
        })
        .for_each(|s| memory.add_section(s));
    [1, 5, 1]
        .into_iter()
        .enumerate()
        .map(|(i, pages)| Section::new(&format!("flex{i}")).unwrap().set_pages(pages))
        .for_each(|s| memory.add_section(s));
    let resolved = resolve(&memory).unwrap();
    for pair in sections(&resolved).windows(2) {
        let (prev, next) = (&pair[0], &pair[1]);
        assert!(prev.address + prev.size <= next.address);
    }
}

#[test]
fn solve_boot_maximize() {
    let chip = Chip::new(1000, 0, 20000).unwrap();
    let mut memory = Memory::new(chip);
    [4000]
        .into_iter()
        .map(|i| {
            Section::new(&format!("fixed{i}"))
                .unwrap()
                .set_address(i)
                .set_size(1000)
                .set_pages(1)
        })
        .for_each(|s| memory.add_section(s));
    memory.add_section(
        Section::new("flash")
            .unwrap()
            .set_boot(true)
            .set_maximize(true),
    );
    let resolved = resolve(&memory).unwrap();
    let boot = &sections(&resolved)[0];
    assert_eq!(boot.name, "flash");
    assert_eq!(boot.address, 0);
}

#[test]
fn min_byte_size() {
    let chip = Chip::new(1, 0, 30).unwrap();
    let mut memory = Memory::new(chip);
    memory.add_section(Section::new("test").unwrap().set_size(20));
    let resolved = resolve(&memory).unwrap();
    let sec = &sections(&resolved)[0];
    assert_eq!(sec.size, 20);
    assert_eq!(sec.pages, 20);
}

#[test]
fn min_page_size() {
    let chip = Chip::new(1, 0, 30).unwrap();
    let mut memory = Memory::new(chip);
    memory.add_section(Section::new("test").unwrap().set_pages(20));
    let resolved = resolve(&memory).unwrap();
    let sec = &sections(&resolved)[0];
    assert_eq!(sec.size, 20);
    assert_eq!(sec.pages, 20);
}

#[test]
fn too_small_memory() {
    let chip = Chip::new(2, 0, 30).unwrap();
    let mut memory = Memory::new(chip);
    memory.add_section(Section::new("test").unwrap().set_pages(20));
    let err = resolve(&memory).unwrap_err();
    assert_eq!(err, MemoryError::MemoryTooSmall);
}

#[test]
fn resolve_rp() {
    let chip = Chip::new(256, 0x1000_0000, 8192 * 256).unwrap();
    let mut layout = Memory::new(chip);
    layout.add_section(Section::new("BOOT2").unwrap().set_size(256).set_boot(true));
    layout.add_section(
        Section::new("FLASH")
            .unwrap()
            .set_maximize(true)
            .set_address(0x1000_0100),
    );
    let resolved = resolve(&layout).unwrap();
    let sec = &sections(&resolved)[0];
    assert_eq!(sec.size, 256);
    let sec = &sections(&resolved)[1];
    assert_eq!(sec.address, 0x1000_0100);
    assert_eq!(sec.size, 2_096_896);
}

#[test]
fn linker_name() {
    let chip = Chip::new(1, 0, 1).unwrap();
    let mut memory = Memory::new(chip);
    memory.add_section(
        Section::new("test")
            .unwrap()
            .set_pages(1)
            .set_linker_name("test_linker_name")
            .unwrap(),
    );
    let resolved = resolve(&memory).unwrap();
    assert_eq!(sections(&resolved)[0].linker_name, "test_linker_name");
}

#[test]
fn simple_layout_from_the_overview() {
    let chip = Chip::new(2048, 0x800_000, 64 * 1024).unwrap();
    let mut memory = Memory::new(chip);
    memory.add_section(Section::new("app").unwrap().set_boot(true).set_maximize(true));
    memory.add_section(Section::new("config").unwrap().set_pages(3));
    let layout = resolve(&memory).unwrap();
    let layout = sections(&layout);
    assert_eq!(layout[0].address, 0x800_000);
    assert_eq!(layout[0].pages, 29);
    assert_eq!(layout[1].address, 0x80E_800);
    assert_eq!(layout[1].pages, 3);
}

#[test]
fn multiple_bootable() {
    let chip = Chip::new(1, 0, 10).unwrap();
    let mut memory = Memory::new(chip);
    memory.add_section(Section::new("a").unwrap().set_boot(true).set_pages(1));
    memory.add_section(Section::new("b").unwrap().set_boot(true).set_pages(1));
    assert_eq!(resolve(&memory).unwrap_err(), MemoryError::MultipleBootable);
}

#[test]
fn maximized_without_free_pages() {
    let chip = Chip::new(1, 0, 4).unwrap();
    let mut memory = Memory::new(chip);
    memory.add_section(Section::new("a").unwrap().set_pages(4));
    memory.add_section(Section::new("b").unwrap().set_maximize(true));
    assert_eq!(resolve(&memory).unwrap_err(), MemoryError::UnresolvableLayout);
}

#[test]
fn no_free_region() {
    let chip = Chip::new(1, 0, 4).unwrap();
    let mut memory = Memory::new(chip);
    memory.add_section(Section::new("all").unwrap().set_address(0).set_pages(4));
    memory.add_section(Section::new("more").unwrap().set_size(0));
    assert_eq!(resolve(&memory).unwrap_err(), MemoryError::MemoryTooSmall);
}

#[test]
fn heterogeneous_pages_abort() {
    let chip = Chip::from_parts(0, PageSize::Heterogeneous(vec![4, 4]), 8);
    let mut memory = Memory::new(chip);
    memory.add_section(Section::new("a").unwrap().set_pages(1));
    let (_, request) = memory.start_resolve();
    assert!(matches!(request, ResolveRequest::Abort));
}

#[test]
fn maximized_sections_share_the_rest() {
    let chip = Chip::new(10, 0, 100).unwrap();
    let mut memory = Memory::new(chip);
    memory.add_section(Section::new("a").unwrap().set_maximize(true));
    memory.add_section(Section::new("b").unwrap().set_maximize(true).set_relative_pages(1));
    memory.add_section(Section::new("c").unwrap().set_pages(2));
    let layout = resolve(&memory).unwrap();
    let layout = sections(&layout);
    let total: u64 = layout.iter().map(|s| s.pages).sum();
    assert!(total <= 10);
    let a = layout.iter().find(|s| s.name == "a").unwrap();
    let b = layout.iter().find(|s| s.name == "b").unwrap();
    assert_eq!(b.pages, a.pages + 1);
    for pair in layout.windows(2) {
        assert!(pair[0].address + pair[0].size <= pair[1].address);
    }
}

#[test]
fn test_simple_maximizing() {
    let sections = (0..5)
        .map(|i| Section::new(&format!("test{i}")).unwrap().set_maximize(true))
        .collect::<Vec<_>>();
    let problem = free_problem(&sections, 5).unwrap();
    let SolveReport::Solved(values) = run_solver(&problem) else {
        panic!("not solved")
    };
    let solved = free_readout(&sections, &values).unwrap();
    for s in solved {
        assert_eq!(s.pages(), Some(1));
    }
}

#[test]
fn test_diff_maximizing() {
    let sections = (0..5)
        .map(|i| {
            Section::new(&format!("test{i}"))
                .unwrap()
                .set_maximize(true)
                .set_relative_pages(-2 + i)
        })
        .collect::<Vec<_>>();
    let problem = free_problem(&sections, 15).unwrap();
    let SolveReport::Solved(values) = run_solver(&problem) else {
        panic!("not solved")
    };
    let solved = free_readout(&sections, &values).unwrap();
    for (i, s) in solved.iter().enumerate() {
        assert_eq!(s.pages(), Some(1 + i as u64));
    }
}

#[test]
fn test_zero_size() {
    let sections = (0..5)
        .map(|i| {
            Section::new(&format!("test{i}"))
                .unwrap()
                .set_maximize(true)
                .set_relative_pages(-2 + i)
        })
        .collect::<Vec<_>>();
    let problem = free_problem(&sections, 9).unwrap();
    assert_eq!(run_solver(&problem), SolveReport::Failed(LpFailure::Infeasible));
}

#[test]
fn default_layout() {
    let esp_single_factory_app = "# ESP-IDF Partition Table\n\
        # Name,Type,SubType,Offset,Size,Flags\n\
        nvs,data,nvs,0x9000,0x6000,\n\
        phy_init,data,phy,0xf000,0x1000,\n\
        factory,app,factory,0x10000,0x100000,\n\
        ";

    let nvs = Section::new("nvs")
        .unwrap()
        .set_size(0x6000)
        .set_address(0x9000)
        .add_esp_metadata(Type::Data, SubType::Data(DataType::Nvs));
    let phy_init = Section::new("phy_init")
        .unwrap()
        .set_size(0x1000)
        .set_address(0xf000)
        .add_esp_metadata(Type::Data, SubType::Data(DataType::Phy));
    let factory = Section::new("factory")
        .unwrap()
        .set_size(1024 * 1024)
        .set_address_align(64 * 1024)
        .add_esp_metadata(Type::App, SubType::App(AppType::Factory));

    let chip = Chip::new(512, 0, 2048 * 1048).unwrap();
    let mut memory = Memory::new(chip);
    memory.add_section(nvs);
    memory.add_section(phy_init);
    memory.add_section(factory);

    let resolved = resolve(&memory).unwrap();

    let csv = resolved.into_esp_partition().to_csv().unwrap();
    assert_eq!(&csv, esp_single_factory_app);
}

#[test]
fn cheapest_placement_is_chosen() {
    let chip = Chip::new(1, 0, 4).unwrap();
    let mut memory = Memory::new(chip);
    memory.add_section(Section::new("a").unwrap().set_pages(2));
    memory.add_section(Section::new("b").unwrap().set_pages(1));
    let layout = resolve(&memory).unwrap();
    let got: Vec<(&str, u64, u64)> = sections(&layout)
        .iter()
        .map(|s| (s.name.as_str(), s.address, s.size))
        .collect();
    assert_eq!(got, vec![("b", 0, 1), ("a", 1, 2)]);
}

#[test]
fn addresses_beyond_the_solver_range() {
    let chip = Chip::new(1, 1 << 60, 16).unwrap();
    let mut memory = Memory::new(chip);
    memory.add_section(Section::new("a").unwrap().set_pages(1));
    assert_eq!(resolve(&memory).unwrap_err(), MemoryError::AddressTooLarge);
}

#[test]
fn fixed_sections_stay_and_others_fill_around_them() {
    let chip = Chip::new(4, 0, 32).unwrap();
    let mut memory = Memory::new(chip);
    memory.add_section(Section::new("fixed").unwrap().set_address(8).set_pages(2));
    memory.add_section(Section::new("big").unwrap().set_pages(3));
    memory.add_section(Section::new("small").unwrap().set_size(3));
    let layout = resolve(&memory).unwrap();
    let layout = sections(&layout);
    assert_eq!(layout.len(), 3);
    let fixed = layout.iter().find(|s| s.name == "fixed").unwrap();
    assert_eq!((fixed.address, fixed.size, fixed.pages), (8, 8, 2));
    let small = layout.iter().find(|s| s.name == "small").unwrap();
    assert_eq!((small.size, small.pages), (4, 1));
    for i in 0..layout.len() {
        for j in 0..layout.len() {
            if i != j {
                let (p, q) = (&layout[i], &layout[j]);
                assert!(p.address + p.size <= q.address || q.address + q.size <= p.address);
            }
        }
    }
    for pair in layout.windows(2) {
        assert!(pair[0].address <= pair[1].address);
    }
}

#[test]
fn maximized_section_with_a_minimum_takes_the_whole_chip() {
    let chip = Chip::new(1, 0, 10).unwrap();
    let mut memory = Memory::new(chip);
    memory.add_section(Section::new("m").unwrap().set_maximize(true).set_pages(2));
    let layout = resolve(&memory).unwrap();
    assert_eq!(sections(&layout)[0].pages, 10);
    assert_eq!(sections(&layout)[0].address, 0);
}
