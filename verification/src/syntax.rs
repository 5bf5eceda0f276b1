//! The parts of a source file's syntax tree in which an import can stand,
//! and the walk that collects the imports.

use crate::imports::{import_views, resolve_import, Import, ImportKind, ImportView};
use crate::specifier::package_name_of;
use crate::text::same_text;
use vstd::prelude::*;
use vstd::string::*;

verus! {

/// An expression, as far as an import can stand in it.
#[derive(Debug)]
pub enum Expression {
    /// A call. `callee` holds the name where the callee is a plain
    /// identifier; `line` is the line on which the call starts.
    Call { callee: Option<String>, arguments: Vec<Argument>, line: usize },
    /// A dynamic `import(..)`. `source` holds the text where the source is a
    /// string literal.
    Import { source: Option<String>, line: usize },
    Await { argument: Box<Expression> },
    /// A conditional expression, without its test
    Conditional { consequent: Box<Expression>, alternate: Box<Expression> },
    Logical { left: Box<Expression>, right: Box<Expression> },
    /// An assignment, without its target
    Assignment { right: Box<Expression> },
    /// A string literal
    Text { value: String },
    /// Any other expression
    Other,
}

/// An argument of a call.
#[derive(Debug)]
pub struct Argument {
    /// Whether the argument is spread (`...value`)
    pub spread: bool,
    pub value: Expression,
}

/// A statement at the top level of a source file, as far as an import can
/// stand in it. `line` is the line on which the statement starts.
#[derive(Debug)]
pub enum Statement {
    /// `import x from 'source'`
    Import { source: String, line: usize },
    /// `export { x } from 'source'`, or an export without a source
    ExportNamed { source: Option<String>, line: usize },
    /// `export * from 'source'`
    ExportAll { source: String, line: usize },
    Expression { expression: Expression },
    /// A variable declaration: the initializer of each declarator, if any
    Variables { initializers: Vec<Option<Expression>> },
    /// Any other statement
    Other,
}

/// The import that the specifier of a statement or call gives, if it names a
/// package.
pub open spec fn found(file: Seq<char>, line: usize, specifier: Seq<char>, kind: ImportKind) -> Seq<
    ImportView,
> {
    match package_name_of(specifier) {
        Some(package) => seq![
            ImportView { file_path: file, line, specifier, kind, resolved_package: Some(package) },
        ],
        None => Seq::empty(),
    }
}

/// The import of a call of `require` whose first argument is a string
/// literal.
pub open spec fn required(
    file: Seq<char>,
    callee: Option<String>,
    arguments: Seq<Argument>,
    line: usize,
) -> Seq<ImportView> {
    if callee is Some && callee->0@ == "require"@ && arguments.len() > 0 && !arguments[0].spread
        && arguments[0].value is Text {
        found(file, line, arguments[0].value->value@, ImportKind::CommonJs)
    } else {
        Seq::empty()
    }
}

/// The imports in an expression, in the order of the walk: a call of
/// `require` before what its arguments hold, the arguments from left to
/// right, the branches of a conditional and the sides of a logical
/// expression from left to right.
pub open spec fn expression_imports(e: Expression, file: Seq<char>) -> Seq<ImportView>
    decreases e, 0nat,
{
    match e {
        Expression::Call { callee, arguments, line } => required(file, callee, arguments@, line)
            + argument_imports(arguments@, file, arguments@.len()),
        Expression::Import { source, line } => match source {
            Some(text) => found(file, line, text@, ImportKind::Dynamic),
            None => Seq::empty(),
        },
        Expression::Await { argument } => expression_imports(*argument, file),
        Expression::Conditional { consequent, alternate } => expression_imports(*consequent, file)
            + expression_imports(*alternate, file),
        Expression::Logical { left, right } => expression_imports(*left, file)
            + expression_imports(*right, file),
        Expression::Assignment { right } => expression_imports(*right, file),
        Expression::Text { value } => Seq::empty(),
        Expression::Other => Seq::empty(),
    }
}

/// The imports in the first `upto` arguments of a call.
pub open spec fn argument_imports(arguments: Seq<Argument>, file: Seq<char>, upto: nat) -> Seq<
    ImportView,
>
    decreases arguments, upto,
{
    if upto == 0 || upto > arguments.len() {
        Seq::empty()
    } else {
        argument_imports(arguments, file, (upto - 1) as nat) + expression_imports(
            arguments[upto - 1].value,
            file,
        )
    }
}

/// The imports in the first `upto` initializers of a declaration.
pub open spec fn initializer_imports(
    initializers: Seq<Option<Expression>>,
    file: Seq<char>,
    upto: nat,
) -> Seq<ImportView>
    decreases upto,
{
    if upto == 0 {
        Seq::empty()
    } else {
        initializer_imports(initializers, file, (upto - 1) as nat) + match initializers[upto - 1] {
            Some(e) => expression_imports(e, file),
            None => Seq::empty(),
        }
    }
}

/// The imports in a statement.
pub open spec fn statement_imports(s: Statement, file: Seq<char>) -> Seq<ImportView> {
    match s {
        Statement::Import { source, line } => found(file, line, source@, ImportKind::EsModule),
        Statement::ExportNamed { source, line } => match source {
            Some(text) => found(file, line, text@, ImportKind::ReExport),
            None => Seq::empty(),
        },
        Statement::ExportAll { source, line } => found(file, line, source@, ImportKind::ReExport),
        Statement::Expression { expression } => expression_imports(expression, file),
        Statement::Variables { initializers } => initializer_imports(
            initializers@,
            file,
            initializers@.len(),
        ),
        Statement::Other => Seq::empty(),
    }
}

/// The imports in the first `upto` statements of a file.
pub open spec fn program_imports(body: Seq<Statement>, file: Seq<char>, upto: nat) -> Seq<
    ImportView,
>
    decreases upto,
{
    if upto == 0 {
        Seq::empty()
    } else {
        program_imports(body, file, (upto - 1) as nat) + statement_imports(body[upto - 1], file)
    }
}

/// Adds the import of a specifier, if it names a package.
fn record(file: &str, line: usize, specifier: &str, kind: ImportKind, imports: &mut Vec<Import>)
    ensures
        import_views(final(imports)@) == import_views(old(imports)@) + found(
            file@,
            line,
            specifier@,
            kind,
        ),
{
    let ghost before = import_views(imports@);
    match resolve_import(file, line, specifier, kind) {
        Some(import) => {
            imports.push(import);
            assert(import_views(imports@) =~= before + found(file@, line, specifier@, kind));
        },
        None => {
            assert(import_views(imports@) =~= before + found(file@, line, specifier@, kind));
        },
    }
}

/// Adds the imports in an expression.
pub fn extract_from_expression(expr: &Expression, file: &str, imports: &mut Vec<Import>)
    ensures
        import_views(final(imports)@) == import_views(old(imports)@) + expression_imports(
            *expr,
            file@,
        ),
    decreases expr,
{
    let ghost start = import_views(imports@);
    match expr {
        Expression::Call { callee, arguments, line } => {
            let mut is_require = false;
            match callee {
                Some(name) => {
                    is_require = same_text(name.as_str(), "require");
                },
                None => {},
            }
            if is_require && arguments.len() > 0 && !arguments[0].spread {
                match &arguments[0].value {
                    Expression::Text { value } => {
                        record(file, *line, value.as_str(), ImportKind::CommonJs, imports);
                    },
                    _ => {},
                }
            }
            let ghost first = required(file@, *callee, arguments@, *line);
            assert(import_views(imports@) =~= start + first);
            let mut i: usize = 0;
            while i < arguments.len()
                invariant
                    *expr == (Expression::Call {
                        callee: *callee,
                        arguments: *arguments,
                        line: *line,
                    }),
                    i <= arguments@.len(),
                    import_views(imports@) == start + first + argument_imports(
                        arguments@,
                        file@,
                        i as nat,
                    ),
                decreases arguments@.len() - i,
            {
                proof {
                    assert(decreases_to!(*expr => expr->arguments));
                    assert(decreases_to!(expr->arguments => expr->arguments@));
                    assert(decreases_to!(expr->arguments@ => expr->arguments@[i as int]));
                    assert(decreases_to!(expr->arguments@[i as int] => expr->arguments@[i as int].value));
                }
                let ghost before = import_views(imports@);
                extract_from_expression(&arguments[i].value, file, imports);
                assert(import_views(imports@) =~= start + first + argument_imports(
                    arguments@,
                    file@,
                    (i + 1) as nat,
                ));
                i += 1;
            }
            assert(import_views(imports@) =~= start + expression_imports(*expr, file@));
        },
        Expression::Import { source, line } => {
            match source {
                Some(text) => {
                    record(file, *line, text.as_str(), ImportKind::Dynamic, imports);
                },
                None => {
                    assert(import_views(imports@) =~= start + Seq::<ImportView>::empty());
                },
            }
        },
        Expression::Await { argument } => {
            extract_from_expression(argument, file, imports);
        },
        Expression::Conditional { consequent, alternate } => {
            extract_from_expression(consequent, file, imports);
            extract_from_expression(alternate, file, imports);
            assert(import_views(imports@) =~= start + expression_imports(*expr, file@));
        },
        Expression::Logical { left, right } => {
            extract_from_expression(left, file, imports);
            extract_from_expression(right, file, imports);
            assert(import_views(imports@) =~= start + expression_imports(*expr, file@));
        },
        Expression::Assignment { right } => {
            extract_from_expression(right, file, imports);
        },
        Expression::Text { value } => {
            assert(import_views(imports@) =~= start + Seq::<ImportView>::empty());
        },
        Expression::Other => {
            assert(import_views(imports@) =~= start + Seq::<ImportView>::empty());
        },
    }
}

/// Adds the imports in a statement.
pub fn extract_from_statement(stmt: &Statement, file: &str, imports: &mut Vec<Import>)
    ensures
        import_views(final(imports)@) == import_views(old(imports)@) + statement_imports(
            *stmt,
            file@,
        ),
{
    let ghost start = import_views(imports@);
    match stmt {
        Statement::Import { source, line } => {
            record(file, *line, source.as_str(), ImportKind::EsModule, imports);
        },
        Statement::ExportNamed { source, line } => {
            match source {
                Some(text) => {
                    record(file, *line, text.as_str(), ImportKind::ReExport, imports);
                },
                None => {
                    assert(import_views(imports@) =~= start + Seq::<ImportView>::empty());
                },
            }
        },
        Statement::ExportAll { source, line } => {
            record(file, *line, source.as_str(), ImportKind::ReExport, imports);
        },
        Statement::Expression { expression } => {
            extract_from_expression(expression, file, imports);
        },
        Statement::Variables { initializers } => {
            let mut i: usize = 0;
            assert(import_views(imports@) =~= start + initializer_imports(
                initializers@,
                file@,
                0,
            ));
            while i < initializers.len()
                invariant
                    i <= initializers@.len(),
                    import_views(imports@) == start + initializer_imports(
                        initializers@,
                        file@,
                        i as nat,
                    ),
                decreases initializers@.len() - i,
            {
                match &initializers[i] {
                    Some(init) => {
                        extract_from_expression(init, file, imports);
                    },
                    None => {},
                }
                assert(import_views(imports@) =~= start + initializer_imports(
                    initializers@,
                    file@,
                    (i + 1) as nat,
                ));
                i += 1;
            }
        },
        Statement::Other => {
            assert(import_views(imports@) =~= start + Seq::<ImportView>::empty());
        },
    }
}

/// The imports of a source file, in the order of its statements.
pub fn extract(file: &str, body: &Vec<Statement>) -> (imports: Vec<Import>)
    ensures
        import_views(imports@) == program_imports(body@, file@, body@.len() as nat),
{
    let mut imports: Vec<Import> = Vec::new();
    let mut i: usize = 0;
    assert(import_views(imports@) =~= program_imports(body@, file@, 0));
    while i < body.len()
        invariant
            i <= body@.len(),
            import_views(imports@) == program_imports(body@, file@, i as nat),
        decreases body@.len() - i,
    {
        extract_from_statement(&body[i], file, &mut imports);
        i += 1;
    }
    imports
}

} // verus!
