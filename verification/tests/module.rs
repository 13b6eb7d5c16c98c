use olus::ast::{Binder, Expression as Sugar, Statement};
use olus::frame::{assemble_plan, Context, Layout, RomLayout};
use olus::mir::{Declaration, Expression};
use olus::module::Module;
use olus::sink::Assembler;
use olus::state::{Allocation, State};
use olus::value::Value;

fn program() -> Statement {
    Statement::Block(vec![
        Statement::Closure(
            vec![Binder(Some(0), "main".to_string()), Binder(Some(1), "x".to_string())],
            vec![
                Sugar::Reference(Some(2), "helper".to_string()),
                Sugar::Reference(Some(1), "x".to_string()),
                Sugar::Number(7),
            ],
        ),
        Statement::Closure(
            vec![Binder(Some(2), "helper".to_string()), Binder(Some(3), "y".to_string())],
            vec![
                Sugar::Reference(None, "print".to_string()),
                Sugar::Reference(Some(1), "x".to_string()),
                Sugar::Reference(Some(3), "y".to_string()),
                Sugar::Literal("s".to_string()),
                Sugar::Number(7),
            ],
        ),
    ])
}

#[test]
fn module_of_a_program() {
    let module = Module::from(&program());
    assert_eq!(module.symbols, vec!["main", "x", "helper", "y"]);
    assert_eq!(module.imports, vec!["print"]);
    assert_eq!(module.strings, vec!["s"]);
    assert_eq!(module.numbers, vec![7]);
    assert_eq!(
        module.declarations,
        vec![
            Declaration {
                procedure: vec![0, 1],
                call: vec![Expression::Symbol(2), Expression::Symbol(1), Expression::Number(0)],
                closure: vec![],
            },
            Declaration {
                procedure: vec![2, 3],
                call: vec![
                    Expression::Import(0),
                    Expression::Symbol(1),
                    Expression::Symbol(3),
                    Expression::Literal(0),
                    Expression::Number(0),
                ],
                closure: vec![1],
            },
        ]
    );
    assert!(module.is_name(0));
    assert!(!module.is_name(1));
    assert!(module.is_name(2));
    assert!(!module.is_name(3));
    assert!(!module.is_name(4));
}

#[test]
fn symbols_are_padded_with_empty_texts() {
    let mut module = Module::new();
    assert_eq!(module.symbol(2, "c".to_string()), 2);
    assert_eq!(module.symbols, vec!["", "", "c"]);
    assert_eq!(module.symbol(0, "a".to_string()), 0);
    assert_eq!(module.symbols, vec!["a", "", "c"]);
}

#[test]
fn constants_are_pooled() {
    let mut module = Module::new();
    assert_eq!(module.convert(Sugar::Number(5)), Expression::Number(0));
    assert_eq!(module.convert(Sugar::Number(6)), Expression::Number(1));
    assert_eq!(module.convert(Sugar::Number(5)), Expression::Number(0));
    assert_eq!(module.convert(Sugar::Literal("a".to_string())), Expression::Literal(0));
    assert_eq!(module.convert(Sugar::Literal("a".to_string())), Expression::Literal(0));
    assert_eq!(module.convert(Sugar::Reference(None, "f".to_string())), Expression::Import(0));
    assert_eq!(module.convert(Sugar::Reference(None, "g".to_string())), Expression::Import(1));
    assert_eq!(module.convert(Sugar::Reference(Some(1), "x".to_string())), Expression::Symbol(1));
    assert_eq!(module.numbers, vec![5, 6]);
    assert_eq!(module.symbols, vec!["", "x"]);
}

#[test]
fn names_are_replaced_by_what_they_capture() {
    // f a ↦ g ; g ↦ h b ; h ↦ a c : f needs what g needs, g needs what h
    // needs and b, and h needs a and c. Of these f has a itself.
    let declaration = |procedure: Vec<usize>, call: Vec<usize>| Declaration {
        procedure,
        call: call.into_iter().map(Expression::Symbol).collect(),
        closure: vec![],
    };
    let mut module = Module::new();
    for (n, text) in ["f", "a", "g", "h", "b", "c"].iter().enumerate() {
        module.symbol(n, text.to_string());
    }
    module.declarations = vec![
        declaration(vec![0, 1], vec![2]),
        declaration(vec![2], vec![3, 4]),
        declaration(vec![3], vec![1, 5]),
    ];
    module.find_names();
    module.compute_closures();
    assert_eq!(module.declarations[0].closure, vec![4, 5]);
    assert_eq!(module.declarations[1].closure, vec![1, 4, 5]);
    assert_eq!(module.declarations[2].closure, vec![1, 5]);
}

fn layouts() -> (Layout, RomLayout) {
    (
        Layout { declarations: vec![0x1000, 0x2000], imports: vec![0x3000] },
        RomLayout { closures: vec![0x400, 0x408], imports: vec![0x500], strings: vec![0x600] },
    )
}

#[test]
fn states_of_a_declaration_without_closure() {
    let module = Module::from(&program());
    let (code, rom) = layouts();
    let ctx = Context { declarations: &module.declarations, numbers: &module.numbers, code: &code, rom: &rom };
    let decl = &module.declarations[0];

    let mut initial = State::default();
    initial.registers[0] = Value::Symbol(0);
    initial.registers[1] = Value::Symbol(1);
    assert_eq!(ctx.initial_state(decl), initial);

    let mut goal = State::default();
    goal.registers[0] = Value::Reference { index: 0, offset: 0 };
    goal.registers[1] = Value::Symbol(1);
    goal.registers[2] = Value::Literal(7);
    goal.allocations.push(Allocation(vec![Value::Literal(0x2000), Value::Symbol(1)]));
    assert_eq!(ctx.goal_state(decl, &initial.symbols()), goal);
    assert!(initial.is_valid());
    assert!(goal.is_valid());
}

#[test]
fn states_of_a_declaration_with_closure() {
    let module = Module::from(&program());
    let (code, rom) = layouts();
    let ctx = Context { declarations: &module.declarations, numbers: &module.numbers, code: &code, rom: &rom };
    let decl = &module.declarations[1];

    let mut initial = State::default();
    initial.registers[0] = Value::Reference { index: 0, offset: 0 };
    initial.registers[1] = Value::Symbol(3);
    initial.allocations.push(Allocation(vec![Value::Literal(0x2000), Value::Symbol(1)]));
    assert_eq!(ctx.initial_state(decl), initial);
    assert_eq!(initial.symbols(), vec![3, 1]);

    let mut goal = State::default();
    goal.registers[0] = Value::Literal(0x500);
    goal.registers[1] = Value::Symbol(1);
    goal.registers[2] = Value::Symbol(3);
    goal.registers[3] = Value::Literal(0x600);
    goal.registers[4] = Value::Literal(7);
    assert_eq!(ctx.goal_state(decl, &initial.symbols()), goal);
}

#[test]
fn find_decl_gives_the_first_declaration_of_the_name() {
    let module = Module::from(&program());
    let (code, rom) = layouts();
    let ctx = Context { declarations: &module.declarations, numbers: &module.numbers, code: &code, rom: &rom };
    assert_eq!(ctx.find_decl(0), Some(0));
    assert_eq!(ctx.find_decl(2), Some(1));
    assert_eq!(ctx.find_decl(1), None);
    assert_eq!(ctx.closure_val(2), vec![Value::Literal(0x2000), Value::Symbol(1)]);
}

#[test]
fn code_of_a_declaration() {
    let module = Module::from(&program());
    let (code, rom) = layouts();
    let ctx = Context { declarations: &module.declarations, numbers: &module.numbers, code: &code, rom: &rom };
    let decl = &module.declarations[0];
    let plan = ctx.plan_decl(decl).unwrap();

    let mut state = ctx.initial_state(decl);
    let goal = ctx.goal_state(decl, &state.symbols());
    for transition in &plan {
        assert!(transition.applies(&state));
        transition.apply(&mut state);
    }
    assert!(state.satisfies(&goal));

    let mut sink = Assembler::new();
    assemble_plan(&plan, &mut sink);
    let size: usize = plan.iter().map(|t| t.size()).sum();
    assert_eq!(sink.bytes.len(), size + 2);
    assert_eq!(&sink.bytes[size..], &[0xFF, 0x20]);
}

#[test]
fn an_empty_plan_is_only_the_jump() {
    let mut sink = Assembler::new();
    assemble_plan(&vec![], &mut sink);
    assert_eq!(sink.bytes, vec![0xFF, 0x20]);
}

#[test]
fn only_a_block_of_numbered_closures_is_translatable() {
    assert!(olus::module::is_translatable(&program()));
    assert!(olus::module::is_translatable(&Statement::Block(vec![])));
    // Not a block.
    assert!(!olus::module::is_translatable(&Statement::Call(vec![Sugar::Number(1)])));
    // A call among the closures.
    assert!(!olus::module::is_translatable(&Statement::Block(vec![Statement::Call(vec![Sugar::Number(1)])])));
    // A closure without a name.
    assert!(!olus::module::is_translatable(&Statement::Block(vec![Statement::Closure(
        vec![],
        vec![Sugar::Number(1)],
    )])));
    // A binder without a number, and one whose number is too large to mark.
    assert!(!olus::module::is_translatable(&Statement::Block(vec![Statement::Closure(
        vec![Binder(None, "f".to_string())],
        vec![],
    )])));
    assert!(!olus::module::is_translatable(&Statement::Block(vec![Statement::Closure(
        vec![Binder(Some(usize::MAX / 8), "f".to_string())],
        vec![],
    )])));
    assert!(olus::module::is_translatable(&Statement::Block(vec![Statement::Closure(
        vec![Binder(Some(usize::MAX / 8 - 1), "f".to_string())],
        vec![],
    )])));
    // Sugar that is still in the call.
    assert!(!olus::module::is_translatable(&Statement::Block(vec![Statement::Closure(
        vec![Binder(Some(0), "f".to_string())],
        vec![Sugar::Galactose(vec![Sugar::Number(1)])],
    )])));
    assert!(!olus::module::is_translatable(&Statement::Block(vec![Statement::Closure(
        vec![Binder(Some(0), "f".to_string())],
        vec![Sugar::Reference(Some(usize::MAX / 8), "g".to_string())],
    )])));
}

#[test]
fn a_declaration_is_compilable_when_its_constants_and_closures_exist() {
    let module = Module::from(&program());
    let (code, rom) = layouts();
    let ctx = Context { declarations: &module.declarations, numbers: &module.numbers, code: &code, rom: &rom };
    assert!(ctx.is_compilable(&module.declarations[0]));
    assert!(ctx.is_compilable(&module.declarations[1]));
    assert!(ctx.has_closure(2));
    assert!(!ctx.has_closure(1));

    // A number, a string and an import that the module lacks.
    let lacks = |call: Vec<Expression>| Declaration { procedure: vec![0], call, closure: vec![] };
    assert!(ctx.is_compilable(&lacks(vec![Expression::Number(0), Expression::Literal(0), Expression::Import(0)])));
    assert!(!ctx.is_compilable(&lacks(vec![Expression::Number(1)])));
    assert!(!ctx.is_compilable(&lacks(vec![Expression::Literal(1)])));
    assert!(!ctx.is_compilable(&lacks(vec![Expression::Import(1)])));
    // A symbol that is neither at hand nor the name of a declaration.
    assert!(ctx.is_compilable(&lacks(vec![Expression::Symbol(0), Expression::Symbol(2)])));
    assert!(!ctx.is_compilable(&lacks(vec![Expression::Symbol(1)])));
    // More arguments or parameters than there are registers.
    assert!(ctx.is_compilable(&lacks(vec![Expression::Number(0); 16])));
    assert!(!ctx.is_compilable(&lacks(vec![Expression::Number(0); 17])));
    assert!(!ctx.is_compilable(&Declaration { procedure: vec![0; 17], call: vec![], closure: vec![] }));
    // A closure needs a name that has code.
    assert!(!ctx.is_compilable(&Declaration { procedure: vec![], call: vec![], closure: vec![1] }));
    assert!(!ctx.is_compilable(&Declaration { procedure: vec![5], call: vec![], closure: vec![1] }));
    assert!(ctx.is_compilable(&Declaration { procedure: vec![2], call: vec![], closure: vec![1] }));
}
