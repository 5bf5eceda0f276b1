use depx::imports::{Import, ImportKind};
use depx::specifier::line_number;
use depx::syntax::{extract, extract_from_expression, extract_from_statement, Argument, Expression, Statement};
use oxc_allocator::Allocator;
use oxc_ast::ast as js;
use oxc_parser::Parser;
use oxc_span::SourceType;

fn expression(expr: &js::Expression, source: &str) -> Expression {
    match expr {
        js::Expression::CallExpression(call) => Expression::Call {
            callee: match &call.callee {
                js::Expression::Identifier(ident) => Some(ident.name.as_str().to_string()),
                _ => None,
            },
            arguments: call
                .arguments
                .iter()
                .map(|arg| match arg {
                    js::Argument::SpreadElement(spread) => {
                        Argument { spread: true, value: expression(&spread.argument, source) }
                    }
                    other => Argument {
                        spread: false,
                        value: match other.as_expression() {
                            Some(e) => expression(e, source),
                            None => Expression::Other,
                        },
                    },
                })
                .collect(),
            line: line_number(source, call.span.start as usize),
        },
        js::Expression::ImportExpression(import_expr) => Expression::Import {
            source: match &import_expr.source {
                js::Expression::StringLiteral(lit) => Some(lit.value.as_str().to_string()),
                _ => None,
            },
            line: line_number(source, import_expr.span.start as usize),
        },
        js::Expression::AwaitExpression(await_expr) => {
            Expression::Await { argument: Box::new(expression(&await_expr.argument, source)) }
        }
        js::Expression::ConditionalExpression(cond) => Expression::Conditional {
            consequent: Box::new(expression(&cond.consequent, source)),
            alternate: Box::new(expression(&cond.alternate, source)),
        },
        js::Expression::LogicalExpression(logical) => Expression::Logical {
            left: Box::new(expression(&logical.left, source)),
            right: Box::new(expression(&logical.right, source)),
        },
        js::Expression::AssignmentExpression(assign) => {
            Expression::Assignment { right: Box::new(expression(&assign.right, source)) }
        }
        js::Expression::StringLiteral(lit) => Expression::Text { value: lit.value.as_str().to_string() },
        _ => Expression::Other,
    }
}

fn statement(stmt: &js::Statement, source: &str) -> Statement {
    match stmt {
        js::Statement::ImportDeclaration(decl) => Statement::Import {
            source: decl.source.value.as_str().to_string(),
            line: line_number(source, decl.span.start as usize),
        },
        js::Statement::ExportNamedDeclaration(decl) => Statement::ExportNamed {
            source: decl.source.as_ref().map(|s| s.value.as_str().to_string()),
            line: line_number(source, decl.span.start as usize),
        },
        js::Statement::ExportAllDeclaration(decl) => Statement::ExportAll {
            source: decl.source.value.as_str().to_string(),
            line: line_number(source, decl.span.start as usize),
        },
        js::Statement::ExpressionStatement(expr_stmt) => {
            Statement::Expression { expression: expression(&expr_stmt.expression, source) }
        }
        js::Statement::VariableDeclaration(var_decl) => Statement::Variables {
            initializers: var_decl
                .declarations
                .iter()
                .map(|d| d.init.as_ref().map(|init| expression(init, source)))
                .collect(),
        },
        _ => Statement::Other,
    }
}

fn extract_imports(source: &str) -> Vec<Import> {
    let allocator = Allocator::default();
    let source_type = SourceType::from_path("test.ts").unwrap_or_default();
    let parsed = Parser::new(&allocator, source, source_type).parse();
    let body: Vec<Statement> = parsed.program.body.iter().map(|s| statement(s, source)).collect();
    extract("test.ts", &body)
}

fn text(value: &str) -> Expression {
    Expression::Text { value: value.to_string() }
}

fn plain(value: Expression) -> Argument {
    Argument { spread: false, value }
}

fn require(specifier: &str, line: usize) -> Expression {
    Expression::Call { callee: Some("require".to_string()), arguments: vec![plain(text(specifier))], line }
}

fn packages(imports: &[Import]) -> Vec<String> {
    imports.iter().map(|i| i.resolved_package.clone().unwrap()).collect()
}

#[test]
fn test_es_imports() {
    let source = r#"
import lodash from 'lodash';
import { useState } from 'react';
import * as path from 'path';
"#;
    let imports = extract_imports(source);
    assert_eq!(imports.len(), 2); // path is built-in, so only 2
    assert_eq!(imports[0].resolved_package, Some("lodash".to_string()));
    assert_eq!(imports[1].resolved_package, Some("react".to_string()));
}

#[test]
fn test_require() {
    let source = r#"
const lodash = require('lodash');
const { join } = require('path');
"#;
    let imports = extract_imports(source);
    assert_eq!(imports.len(), 1); // path is built-in
    assert_eq!(imports[0].resolved_package, Some("lodash".to_string()));
}

#[test]
fn test_scoped_packages() {
    let source = r#"
import { something } from '@scope/package';
import sub from '@scope/package/subpath';
"#;
    let imports = extract_imports(source);
    assert_eq!(imports.len(), 2);
    assert_eq!(imports[0].resolved_package, Some("@scope/package".to_string()));
    assert_eq!(imports[1].resolved_package, Some("@scope/package".to_string()));
}

#[test]
fn test_relative_imports_ignored() {
    let source = r#"
import local from './local';
import parent from '../parent';
import abs from '/absolute';
"#;
    let imports = extract_imports(source);
    assert_eq!(imports.len(), 0);
}

#[test]
fn test_dynamic_imports() {
    let source = r#"
const mod = await import('lodash');
"#;
    let imports = extract_imports(source);
    assert_eq!(imports.len(), 1);
    assert_eq!(imports[0].kind, ImportKind::Dynamic);
}

#[test]
fn parsed_imports_carry_file_line_and_kind() {
    let source = "import a from 'a';\nexport { b } from 'b/sub';\nexport * from '@s/c';\nfoo(require('d'), ...[require('e')]);\nx = cond ? require('f') : y && import('g');\nz = (require('h'));\n";
    let imports = extract_imports(source);
    let seen: Vec<(String, usize, ImportKind)> =
        imports.iter().map(|i| (i.resolved_package.clone().unwrap(), i.line, i.kind)).collect();
    assert_eq!(
        seen,
        vec![
            ("a".to_string(), 1, ImportKind::EsModule),
            ("b".to_string(), 2, ImportKind::ReExport),
            ("@s/c".to_string(), 3, ImportKind::ReExport),
            ("d".to_string(), 4, ImportKind::CommonJs),
            ("f".to_string(), 5, ImportKind::CommonJs),
            ("g".to_string(), 5, ImportKind::Dynamic),
        ]
    );
    assert!(imports.iter().all(|i| i.file_path == "test.ts"));
    assert_eq!(imports[1].specifier, "b/sub");
}

#[test]
fn walk_of_a_call() {
    // require('a', require('b'), ...require('c')) and a call of another name
    let call = Expression::Call {
        callee: Some("require".to_string()),
        arguments: vec![
            plain(text("a")),
            plain(require("b", 2)),
            Argument { spread: true, value: require("c", 3) },
            plain(Expression::Call { callee: Some("load".to_string()), arguments: vec![plain(text("d"))], line: 4 }),
            plain(Expression::Call { callee: None, arguments: vec![plain(require("e", 5))], line: 5 }),
        ],
        line: 1,
    };
    let mut imports = Vec::new();
    extract_from_expression(&call, "f.js", &mut imports);
    assert_eq!(packages(&imports), vec!["a", "b", "c", "e"]);
    let lines: Vec<usize> = imports.iter().map(|i| i.line).collect();
    assert_eq!(lines, vec![1, 2, 3, 5]);
    assert!(imports.iter().all(|i| i.kind == ImportKind::CommonJs));
}

#[test]
fn require_needs_a_plain_text_first() {
    let spread_first = Expression::Call {
        callee: Some("require".to_string()),
        arguments: vec![Argument { spread: true, value: text("a") }],
        line: 1,
    };
    let not_text = Expression::Call {
        callee: Some("require".to_string()),
        arguments: vec![plain(Expression::Other), plain(text("b"))],
        line: 1,
    };
    let no_arguments = Expression::Call { callee: Some("require".to_string()), arguments: vec![], line: 1 };
    let mut imports = Vec::new();
    extract_from_expression(&spread_first, "f.js", &mut imports);
    extract_from_expression(&not_text, "f.js", &mut imports);
    extract_from_expression(&no_arguments, "f.js", &mut imports);
    extract_from_expression(&text("lodash"), "f.js", &mut imports);
    extract_from_expression(&Expression::Import { source: None, line: 1 }, "f.js", &mut imports);
    assert!(imports.is_empty());
}

#[test]
fn walk_of_nested_expressions() {
    let nested = Expression::Assignment {
        right: Box::new(Expression::Conditional {
            consequent: Box::new(Expression::Await {
                argument: Box::new(Expression::Import { source: Some("x/deep".to_string()), line: 7 }),
            }),
            alternate: Box::new(Expression::Logical {
                left: Box::new(require("./local", 8)),
                right: Box::new(require("y", 9)),
            }),
        }),
    };
    let mut imports = Vec::new();
    extract_from_expression(&nested, "f.js", &mut imports);
    assert_eq!(packages(&imports), vec!["x", "y"]);
    assert_eq!(imports[0].kind, ImportKind::Dynamic);
    assert_eq!(imports[0].specifier, "x/deep");
    assert_eq!(imports[1].kind, ImportKind::CommonJs);
}

#[test]
fn walk_of_statements() {
    let body = vec![
        Statement::Import { source: "react".to_string(), line: 1 },
        Statement::ExportNamed { source: None, line: 2 },
        Statement::ExportNamed { source: Some("lodash/fp".to_string()), line: 3 },
        Statement::ExportAll { source: "node:fs".to_string(), line: 4 },
        Statement::Variables { initializers: vec![None, Some(require("a", 5)), Some(Expression::Other)] },
        Statement::Other,
        Statement::Expression { expression: require("b", 7) },
    ];
    let imports = extract("src/x.ts", &body);
    assert_eq!(packages(&imports), vec!["react", "lodash", "a", "b"]);
    let kinds: Vec<ImportKind> = imports.iter().map(|i| i.kind).collect();
    assert_eq!(kinds, vec![ImportKind::EsModule, ImportKind::ReExport, ImportKind::CommonJs, ImportKind::CommonJs]);
    let mut more = Vec::new();
    extract_from_statement(&body[0], "src/x.ts", &mut more);
    extract_from_statement(&body[5], "src/x.ts", &mut more);
    assert_eq!(packages(&more), vec!["react"]);
    assert!(extract("src/x.ts", &Vec::new()).is_empty());
}
