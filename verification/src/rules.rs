//! The static ruleset of packages that are installed without being imported:
//! build, lint, test and release tooling, and type definitions.

use crate::text::{chars_of, same_text, starts_with};
use vstd::prelude::*;

verus! {

/// Whether `name` is one of the known tools that source code never imports.
pub open spec fn expected_unused_exact(name: Seq<char>) -> bool {
    name == "typescript"@
    || name == "ts-node"@
    || name == "tsx"@
    || name == "ts-jest"@
    || name == "vite"@
    || name == "webpack"@
    || name == "webpack-cli"@
    || name == "webpack-dev-server"@
    || name == "rollup"@
    || name == "esbuild"@
    || name == "parcel"@
    || name == "turbo"@
    || name == "nx"@
    || name == "tsup"@
    || name == "unbuild"@
    || name == "pkgroll"@
    || name == "microbundle"@
    || name == "tsdx"@
    || name == "preconstruct"@
    || name == "bunchee"@
    || name == "eslint"@
    || name == "prettier"@
    || name == "stylelint"@
    || name == "biome"@
    || name == "oxlint"@
    || name == "dprint"@
    || name == "xo"@
    || name == "standard"@
    || name == "jest"@
    || name == "vitest"@
    || name == "mocha"@
    || name == "ava"@
    || name == "tap"@
    || name == "c8"@
    || name == "nyc"@
    || name == "playwright"@
    || name == "cypress"@
    || name == "@playwright/test"@
    || name == "uvu"@
    || name == "nodemon"@
    || name == "ts-node-dev"@
    || name == "tsnd"@
    || name == "concurrently"@
    || name == "npm-run-all"@
    || name == "npm-run-all2"@
    || name == "cross-env"@
    || name == "wait-on"@
    || name == "rimraf"@
    || name == "del-cli"@
    || name == "copyfiles"@
    || name == "cpy-cli"@
    || name == "mkdirp"@
    || name == "shx"@
    || name == "husky"@
    || name == "lint-staged"@
    || name == "commitlint"@
    || name == "simple-git-hooks"@
    || name == "lefthook"@
    || name == "semantic-release"@
    || name == "release-it"@
    || name == "standard-version"@
    || name == "bumpp"@
    || name == "changelogithub"@
    || name == "changelogen"@
    || name == "np"@
    || name == "lerna"@
    || name == "changeset"@
    || name == "patch-package"@
    || name == "pnpm-patch"@
    || name == "typedoc"@
    || name == "jsdoc"@
    || name == "documentation"@
    || name == "api-extractor"@
    || name == "tsc"@
    || name == "attw"@
    || name == "publint"@
    || name == "arethetypeswrong"@
    || name == "knip"@
    || name == "depcheck"@
}

/// Whether `name` belongs to a family of tooling packages, by its prefix.
pub open spec fn expected_unused_family(name: Seq<char>) -> bool {
    "@types/"@.is_prefix_of(name)
    || "@typescript-eslint/"@.is_prefix_of(name)
    || "@eslint/"@.is_prefix_of(name)
    || "eslint-plugin-"@.is_prefix_of(name)
    || "eslint-config-"@.is_prefix_of(name)
    || "@vitejs/"@.is_prefix_of(name)
    || "@rollup/"@.is_prefix_of(name)
    || "@babel/"@.is_prefix_of(name)
    || "babel-"@.is_prefix_of(name)
    || "@swc/"@.is_prefix_of(name)
    || "@jest/"@.is_prefix_of(name)
    || "@testing-library/"@.is_prefix_of(name)
    || "@vitest/"@.is_prefix_of(name)
    || "prettier-plugin-"@.is_prefix_of(name)
}

/// Whether a package of this name is expected not to be imported.
pub open spec fn expected_unused(name: Seq<char>) -> bool {
    expected_unused_exact(name) || expected_unused_family(name)
}

fn is_exact_tool(name: &str) -> (r: bool)
    ensures
        r == expected_unused_exact(name@),
{
    same_text(name, "typescript")
    || same_text(name, "ts-node")
    || same_text(name, "tsx")
    || same_text(name, "ts-jest")
    || same_text(name, "vite")
    || same_text(name, "webpack")
    || same_text(name, "webpack-cli")
    || same_text(name, "webpack-dev-server")
    || same_text(name, "rollup")
    || same_text(name, "esbuild")
    || same_text(name, "parcel")
    || same_text(name, "turbo")
    || same_text(name, "nx")
    || same_text(name, "tsup")
    || same_text(name, "unbuild")
    || same_text(name, "pkgroll")
    || same_text(name, "microbundle")
    || same_text(name, "tsdx")
    || same_text(name, "preconstruct")
    || same_text(name, "bunchee")
    || same_text(name, "eslint")
    || same_text(name, "prettier")
    || same_text(name, "stylelint")
    || same_text(name, "biome")
    || same_text(name, "oxlint")
    || same_text(name, "dprint")
    || same_text(name, "xo")
    || same_text(name, "standard")
    || same_text(name, "jest")
    || same_text(name, "vitest")
    || same_text(name, "mocha")
    || same_text(name, "ava")
    || same_text(name, "tap")
    || same_text(name, "c8")
    || same_text(name, "nyc")
    || same_text(name, "playwright")
    || same_text(name, "cypress")
    || same_text(name, "@playwright/test")
    || same_text(name, "uvu")
    || same_text(name, "nodemon")
    || same_text(name, "ts-node-dev")
    || same_text(name, "tsnd")
    || same_text(name, "concurrently")
    || same_text(name, "npm-run-all")
    || same_text(name, "npm-run-all2")
    || same_text(name, "cross-env")
    || same_text(name, "wait-on")
    || same_text(name, "rimraf")
    || same_text(name, "del-cli")
    || same_text(name, "copyfiles")
    || same_text(name, "cpy-cli")
    || same_text(name, "mkdirp")
    || same_text(name, "shx")
    || same_text(name, "husky")
    || same_text(name, "lint-staged")
    || same_text(name, "commitlint")
    || same_text(name, "simple-git-hooks")
    || same_text(name, "lefthook")
    || same_text(name, "semantic-release")
    || same_text(name, "release-it")
    || same_text(name, "standard-version")
    || same_text(name, "bumpp")
    || same_text(name, "changelogithub")
    || same_text(name, "changelogen")
    || same_text(name, "np")
    || same_text(name, "lerna")
    || same_text(name, "changeset")
    || same_text(name, "patch-package")
    || same_text(name, "pnpm-patch")
    || same_text(name, "typedoc")
    || same_text(name, "jsdoc")
    || same_text(name, "documentation")
    || same_text(name, "api-extractor")
    || same_text(name, "tsc")
    || same_text(name, "attw")
    || same_text(name, "publint")
    || same_text(name, "arethetypeswrong")
    || same_text(name, "knip")
    || same_text(name, "depcheck")
}

fn is_tool_family(name: &Vec<char>) -> (r: bool)
    ensures
        r == expected_unused_family(name@),
{
    starts_with(name, "@types/")
    || starts_with(name, "@typescript-eslint/")
    || starts_with(name, "@eslint/")
    || starts_with(name, "eslint-plugin-")
    || starts_with(name, "eslint-config-")
    || starts_with(name, "@vitejs/")
    || starts_with(name, "@rollup/")
    || starts_with(name, "@babel/")
    || starts_with(name, "babel-")
    || starts_with(name, "@swc/")
    || starts_with(name, "@jest/")
    || starts_with(name, "@testing-library/")
    || starts_with(name, "@vitest/")
    || starts_with(name, "prettier-plugin-")
}

/// Check if a package is expected to not be imported directly.
/// These are dev/build tools, type definitions, and similar packages.
pub fn is_expected_unused(name: &str) -> (r: bool)
    ensures
        r == expected_unused(name@),
{
    if is_exact_tool(name) {
        return true;
    }
    let chars = chars_of(name);
    is_tool_family(&chars)
}

} // verus!
