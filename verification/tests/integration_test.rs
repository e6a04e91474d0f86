use simple_profiler::analysis::global::GlobalAnalyzer;
use simple_profiler::analysis::{Sort, Unit};
use simple_profiler::profiler::{FunctionCall, Profiler};

pub fn mul(profiler: &mut Profiler, a: f32, b: f32) -> f32 {
    let token = FunctionCall::new(profiler, "mul");
    let out = a * b;
    token.end(profiler);
    out
}

pub fn add(profiler: &mut Profiler, a: f32, b: f32) -> f32 {
    let token = FunctionCall::new(profiler, "add");
    let out = a + b;
    token.end(profiler);
    out
}

pub fn sub(profiler: &mut Profiler, a: f32, b: f32) -> f32 {
    let token = FunctionCall::new(profiler, "sub");
    let out = a - b;
    token.end(profiler);
    out
}

pub fn div(profiler: &mut Profiler, a: f32, b: f32) -> f32 {
    let token = FunctionCall::new(profiler, "div");
    let out = a / b;
    token.end(profiler);
    out
}

pub fn vec<F: Fn(f32, f32) -> f32>(profiler: &mut Profiler, a: &[f32], b: &[f32], op: F) -> Vec<f32> {
    let token = FunctionCall::new(profiler, "vec");
    let mut out = Vec::new();
    out.reserve(a.len());

    for (a, b) in a.iter().zip(b.iter()) {
        out.push(op(*a, *b));
    }

    token.end(profiler);
    out
}

#[test]
pub fn test() {
    const COUNT: usize = 1000000;

    let mut profiler = Profiler::new();
    let mut vec_a = Vec::new();
    let mut vec_b = Vec::new();

    vec_a.reserve(COUNT);
    vec_b.reserve(COUNT);
    for _ in 0..COUNT {
        let a = 5.0;
        let b = 12.6;

        vec_a.push(a);
        vec_b.push(b);

        let token = FunctionCall::new(&mut profiler, "all");
        {
            mul(&mut profiler, a, b);
            add(&mut profiler, a, b);
            sub(&mut profiler, a, b);
            div(&mut profiler, a, b);
        }
        token.end(&mut profiler);
    }

    vec(&mut profiler, &vec_a, &vec_b, |a, b| a + b);

    let mut analysis = GlobalAnalyzer::try_new(profiler.get_frames()).unwrap();
    analysis.set_sort(Sort::TotalTime);
    analysis.set_unit(Unit::Nanosecond);
    let names: Vec<&str> = analysis.entries().iter().map(|e| e.name.as_str()).collect();
    assert_eq!(names, vec!["mul", "add", "sub", "div", "all", "vec"]);
    for entry in analysis.entries() {
        let calls = if entry.name.as_str() == "vec" { 1 } else { COUNT as u32 };
        assert_eq!(entry.calls, calls);
        assert!(entry.min_time <= entry.max_time);
        assert_eq!(entry.average_time, entry.total_time / entry.calls as u128);
    }
    let all = analysis.entries()[4].total_time;
    assert!(analysis.entries()[..4].iter().map(|e| e.total_time).sum::<u128>() <= all);
    let report = simple_profiler::analysis::FrameAnalyzer::analyze(analysis);
    assert_eq!(report.lines().count(), 7);
    assert!(report.lines().nth(1).unwrap().starts_with("all "));
}
