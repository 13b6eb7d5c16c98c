use olus::interpreter::{Fault, Interpeter, State, Step, Value};
use olus::mir::{Declaration, Expression};
use olus::module::Module;

/// main ↦ print “hi” done ; done ↦ exit 0
fn hello() -> Module {
    let mut module = Module::new();
    module.symbol(0, "main".to_string());
    module.symbol(1, "done".to_string());
    module.imports = vec!["print".to_string(), "exit".to_string()];
    module.strings = vec!["hi".to_string()];
    module.numbers = vec![0];
    module.declarations = vec![
        Declaration {
            procedure: vec![0],
            call: vec![Expression::Import(0), Expression::Literal(0), Expression::Symbol(1)],
            closure: vec![],
        },
        Declaration {
            procedure: vec![1],
            call: vec![Expression::Import(1), Expression::Number(0)],
            closure: vec![],
        },
    ];
    module.find_names();
    module.compute_closures();
    module
}

fn builtin(name: &str) -> Value {
    Value::Builtin(name.to_string())
}

#[test]
fn a_program_runs_to_its_exit() {
    let module = hello();
    let mut state = Interpeter::new(&module).begin("main", &vec![]).unwrap();
    assert_eq!(state.call, vec![Value::Closure(0, vec![])]);
    assert_eq!(state.step(), Step::Continue);
    assert_eq!(
        state.call,
        vec![builtin("print"), Value::String("hi".to_string()), Value::Closure(1, vec![])]
    );
    assert_eq!(state.step(), Step::Print("hi".to_string()));
    assert_eq!(state.call, vec![Value::Closure(1, vec![])]);
    assert_eq!(state.step(), Step::Continue);
    assert_eq!(state.call, vec![builtin("exit"), Value::Number(0)]);
    assert_eq!(state.step(), Step::Exit(0));
    assert_eq!(state.call, vec![]);
    assert_eq!(state.step(), Step::Stop);
}

#[test]
fn a_program_begins_at_a_name() {
    let module = hello();
    let interpreter = Interpeter::new(&module);
    assert!(interpreter.begin("nothing", &vec![]).is_none());
    let state = interpreter.begin("done", &vec![Value::Number(4)]).unwrap();
    assert_eq!(state.call, vec![Value::Closure(1, vec![]), Value::Number(4)]);
}

#[test]
fn parameters_and_captured_values_are_at_hand() {
    // f x ↦ g x ; g y ↦ k y x, where g captures x.
    let mut module = Module::new();
    for (n, text) in ["f", "x", "g", "y"].iter().enumerate() {
        module.symbol(n, text.to_string());
    }
    module.imports = vec!["k".to_string()];
    module.declarations = vec![
        Declaration {
            procedure: vec![0, 1],
            call: vec![Expression::Symbol(2), Expression::Symbol(1)],
            closure: vec![],
        },
        Declaration {
            procedure: vec![2, 3],
            call: vec![Expression::Import(0), Expression::Symbol(3), Expression::Symbol(1)],
            closure: vec![],
        },
    ];
    module.find_names();
    module.compute_closures();
    assert_eq!(module.declarations[1].closure, vec![1]);

    let mut state = Interpeter::new(&module).begin("f", &vec![Value::Number(7)]).unwrap();
    assert_eq!(state.resolve(1), Some(Value::Number(7)));
    assert_eq!(state.resolve(2), Some(Value::Closure(1, vec![Value::Number(7)])));
    assert_eq!(state.resolve(3), None);
    assert_eq!(state.step(), Step::Continue);
    assert_eq!(state.call, vec![Value::Closure(1, vec![Value::Number(7)]), Value::Number(7)]);
    assert_eq!(state.step(), Step::Continue);
    assert_eq!(state.call, vec![builtin("k"), Value::Number(7), Value::Number(7)]);
    assert_eq!(state.step(), Step::Fault(Fault::UnknownBuiltin));
}

fn after(call: Vec<Value>) -> (Step, Vec<Value>) {
    let module = Module::new();
    let mut state = State { module: &module, call };
    let step = state.step();
    (step, state.call)
}

#[test]
fn arithmetic_hands_its_result_on() {
    let k = builtin("k");
    assert_eq!(
        after(vec![builtin("sub"), Value::Number(5), Value::Number(3), k.clone()]),
        (Step::Continue, vec![k.clone(), Value::Number(2)])
    );
    assert_eq!(
        after(vec![builtin("add"), Value::Number(5), Value::Number(3), k.clone()]),
        (Step::Continue, vec![k.clone(), Value::Number(8)])
    );
    assert_eq!(
        after(vec![builtin("mul"), Value::Number(5), Value::Number(3), k.clone()]),
        (Step::Continue, vec![k.clone(), Value::Number(15)])
    );
    assert_eq!(
        after(vec![builtin("divmod"), Value::Number(17), Value::Number(5), k.clone()]),
        (Step::Continue, vec![k.clone(), Value::Number(3), Value::Number(2)])
    );
    assert_eq!(
        after(vec![builtin("isZero"), Value::Number(0), builtin("yes"), builtin("no")]),
        (Step::Continue, vec![builtin("yes")])
    );
    assert_eq!(
        after(vec![builtin("isZero"), Value::Number(2), builtin("yes"), builtin("no")]),
        (Step::Continue, vec![builtin("no")])
    );
}

#[test]
fn faults_leave_the_call_alone() {
    let k = builtin("k");
    let sub = vec![builtin("sub"), Value::Number(3), Value::Number(5), k.clone()];
    assert_eq!(after(sub.clone()), (Step::Fault(Fault::Arithmetic), sub));
    let add = vec![builtin("add"), Value::Number(u64::MAX), Value::Number(1), k.clone()];
    assert_eq!(after(add.clone()), (Step::Fault(Fault::Arithmetic), add));
    let mul = vec![builtin("mul"), Value::Number(u64::MAX), Value::Number(2), k.clone()];
    assert_eq!(after(mul.clone()), (Step::Fault(Fault::Arithmetic), mul));
    let div = vec![builtin("divmod"), Value::Number(1), Value::Number(0), k.clone()];
    assert_eq!(after(div.clone()), (Step::Fault(Fault::Arithmetic), div));
    let short = vec![builtin("print"), Value::String("a".to_string())];
    assert_eq!(after(short.clone()), (Step::Fault(Fault::BadArity), short));
    let text = vec![Value::String("a".to_string())];
    assert_eq!(after(text.clone()), (Step::Fault(Fault::NotCallable), text));
    let nowhere = vec![Value::Closure(3, vec![])];
    assert_eq!(after(nowhere.clone()), (Step::Fault(Fault::Unresolved), nowhere));
}

#[test]
fn a_procedure_stops_on_what_it_does_not_work_on() {
    let k = builtin("k");
    let print = vec![builtin("print"), Value::Number(1), k.clone()];
    assert_eq!(after(print.clone()), (Step::Stop, print));
    let exit = vec![builtin("exit"), Value::String("a".to_string())];
    assert_eq!(after(exit.clone()), (Step::Stop, exit));
    let sub = vec![builtin("sub"), Value::Number(1), k.clone(), k.clone()];
    assert_eq!(after(sub.clone()), (Step::Stop, sub));
    assert_eq!(after(vec![]), (Step::Stop, vec![]));
}
