//! The words that files go by.

use vstd::prelude::*;

use crate::filetype::extensions;
use crate::filetype::names;

verus! {

/// These files go by their whole names, whatever these end in, and no others
/// do.
pub proof fn lemma_names(name: Seq<char>)
    ensures
        ({
            ||| name == "makefile"@
            ||| name == "justfile"@
            ||| name == "rakefile"@
        }) ==> names::known_name(name) == Some("Build script"@),
        ({
            ||| name == "dockerfile"@
            ||| name == "containerfile"@
        }) ==> names::known_name(name) == Some("Container recipe"@),
        ({
            ||| name == "license"@
            ||| name == "licence"@
            ||| name == "copying"@
        }) ==> names::known_name(name) == Some("License"@),
        name == "readme"@ ==> names::known_name(name) == Some("Read-me"@),
        ({
            ||| name == "pagefile.sys"@
            ||| name == "swapfile.sys"@
        }) ==> names::known_name(name) == Some("Windows page file"@),
        name == "hiberfil.sys"@ ==> names::known_name(name) == Some("Windows hibernation file"@),
        ({
            ||| name == ".gitignore"@
            ||| name == ".gitattributes"@
            ||| name == ".gitmodules"@
        }) ==> names::known_name(name) == Some("Git settings"@),
        ({
            ||| name == ".bashrc"@
            ||| name == ".zshrc"@
            ||| name == ".profile"@
            ||| name == ".bash_profile"@
        }) ==> names::known_name(name) == Some("Shell settings"@),
        ({
            ||| name == "cargo.lock"@
            ||| name == "package-lock.json"@
            ||| name == "yarn.lock"@
            ||| name == "pnpm-lock.yaml"@
            ||| name == "poetry.lock"@
            ||| name == "uv.lock"@
            ||| name == "gemfile.lock"@
            ||| name == "go.sum"@
        }) ==> names::known_name(name) == Some("Lock file"@),
        names::known_name(name) is Some <==> {
            ||| name == "makefile"@
            ||| name == "justfile"@
            ||| name == "rakefile"@
            ||| name == "dockerfile"@
            ||| name == "containerfile"@
            ||| name == "license"@
            ||| name == "licence"@
            ||| name == "copying"@
            ||| name == "readme"@
            ||| name == "pagefile.sys"@
            ||| name == "swapfile.sys"@
            ||| name == "hiberfil.sys"@
            ||| name == ".gitignore"@
            ||| name == ".gitattributes"@
            ||| name == ".gitmodules"@
            ||| name == ".bashrc"@
            ||| name == ".zshrc"@
            ||| name == ".profile"@
            ||| name == ".bash_profile"@
            ||| name == "cargo.lock"@
            ||| name == "package-lock.json"@
            ||| name == "yarn.lock"@
            ||| name == "pnpm-lock.yaml"@
            ||| name == "poetry.lock"@
            ||| name == "uv.lock"@
            ||| name == "gemfile.lock"@
            ||| name == "go.sum"@
        },
{
    reveal_strlit("makefile");
    reveal_strlit("justfile");
    reveal_strlit("rakefile");
    reveal_strlit("dockerfile");
    reveal_strlit("containerfile");
    reveal_strlit("license");
    reveal_strlit("licence");
    reveal_strlit("copying");
    reveal_strlit("readme");
    reveal_strlit("pagefile.sys");
    reveal_strlit("swapfile.sys");
    reveal_strlit("hiberfil.sys");
    reveal_strlit(".gitignore");
    reveal_strlit(".gitattributes");
    reveal_strlit(".gitmodules");
    reveal_strlit(".bashrc");
    reveal_strlit(".zshrc");
    reveal_strlit(".profile");
    reveal_strlit(".bash_profile");
    reveal_strlit("cargo.lock");
    reveal_strlit("package-lock.json");
    reveal_strlit("yarn.lock");
    reveal_strlit("pnpm-lock.yaml");
    reveal_strlit("poetry.lock");
    reveal_strlit("uv.lock");
    reveal_strlit("gemfile.lock");
    reveal_strlit("go.sum");
    assert("makefile"@.len() == 8 && "makefile"@[0] == 'm');
    assert("justfile"@.len() == 8 && "justfile"@[0] == 'j');
    assert("rakefile"@.len() == 8 && "rakefile"@[0] == 'r');
    assert("dockerfile"@.len() == 10 && "dockerfile"@[0] == 'd');
    assert("containerfile"@.len() == 13 && "containerfile"@[0] == 'c');
    assert("license"@.len() == 7 && "license"@[0] == 'l');
    assert("licence"@.len() == 7 && "licence"@[0] == 'l');
    assert("copying"@.len() == 7 && "copying"@[0] == 'c');
    assert("readme"@.len() == 6 && "readme"@[0] == 'r');
    assert("pagefile.sys"@.len() == 12 && "pagefile.sys"@[0] == 'p');
    assert("swapfile.sys"@.len() == 12 && "swapfile.sys"@[0] == 's');
    assert("hiberfil.sys"@.len() == 12 && "hiberfil.sys"@[0] == 'h');
    assert(".gitignore"@.len() == 10 && ".gitignore"@[0] == '.');
    assert(".gitattributes"@.len() == 14 && ".gitattributes"@[0] == '.');
    assert(".gitmodules"@.len() == 11 && ".gitmodules"@[0] == '.');
    assert(".bashrc"@.len() == 7 && ".bashrc"@[0] == '.');
    assert(".zshrc"@.len() == 6 && ".zshrc"@[0] == '.');
    assert(".profile"@.len() == 8 && ".profile"@[0] == '.');
    assert(".bash_profile"@.len() == 13 && ".bash_profile"@[0] == '.');
    assert("cargo.lock"@.len() == 10 && "cargo.lock"@[0] == 'c');
    assert("package-lock.json"@.len() == 17);
    assert("yarn.lock"@.len() == 9);
    assert("pnpm-lock.yaml"@.len() == 14 && "pnpm-lock.yaml"@[0] == 'p');
    assert("poetry.lock"@.len() == 11 && "poetry.lock"@[0] == 'p');
    assert("uv.lock"@.len() == 7 && "uv.lock"@[0] == 'u');
    assert("gemfile.lock"@.len() == 12 && "gemfile.lock"@[0] == 'g');
    assert("go.sum"@.len() == 6 && "go.sum"@[0] == 'g');
}

/// Archives, packages and disks go by these words for these endings, and no
/// other ending is one of them.
pub proof fn lemma_archives(extension: Seq<char>)
    ensures
        ({
            ||| extension == "jar"@
            ||| extension == "war"@
            ||| extension == "ear"@
        }) ==> extensions::archives(extension) == Some("Java archive"@),
        ({
            ||| extension == "zip"@
            ||| extension == "7z"@
            ||| extension == "rar"@
            ||| extension == "tar"@
            ||| extension == "gz"@
            ||| extension == "tgz"@
            ||| extension == "bz2"@
            ||| extension == "xz"@
            ||| extension == "zst"@
            ||| extension == "lz4"@
            ||| extension == "cab"@
        }) ==> extensions::archives(extension) == Some("Archive"@),
        ({
            ||| extension == "whl"@
            ||| extension == "egg"@
        }) ==> extensions::archives(extension) == Some("Python package"@),
        extension == "crate"@ ==> extensions::archives(extension) == Some("Rust package"@),
        extension == "nupkg"@ ==> extensions::archives(extension) == Some("NuGet package"@),
        ({
            ||| extension == "deb"@
            ||| extension == "rpm"@
            ||| extension == "apk"@
            ||| extension == "pkg"@
            ||| extension == "msi"@
            ||| extension == "msix"@
            ||| extension == "appx"@
        }) ==> extensions::archives(extension) == Some("Installer package"@),
        ({
            ||| extension == "iso"@
            ||| extension == "img"@
            ||| extension == "dmg"@
        }) ==> extensions::archives(extension) == Some("Disk image"@),
        ({
            ||| extension == "vhd"@
            ||| extension == "vhdx"@
            ||| extension == "vmdk"@
            ||| extension == "vdi"@
            ||| extension == "qcow2"@
        }) ==> extensions::archives(extension) == Some("Virtual disk"@),
        extensions::archives(extension) is Some <==> {
            ||| extension == "jar"@
            ||| extension == "war"@
            ||| extension == "ear"@
            ||| extension == "zip"@
            ||| extension == "7z"@
            ||| extension == "rar"@
            ||| extension == "tar"@
            ||| extension == "gz"@
            ||| extension == "tgz"@
            ||| extension == "bz2"@
            ||| extension == "xz"@
            ||| extension == "zst"@
            ||| extension == "lz4"@
            ||| extension == "cab"@
            ||| extension == "whl"@
            ||| extension == "egg"@
            ||| extension == "crate"@
            ||| extension == "nupkg"@
            ||| extension == "deb"@
            ||| extension == "rpm"@
            ||| extension == "apk"@
            ||| extension == "pkg"@
            ||| extension == "msi"@
            ||| extension == "msix"@
            ||| extension == "appx"@
            ||| extension == "iso"@
            ||| extension == "img"@
            ||| extension == "dmg"@
            ||| extension == "vhd"@
            ||| extension == "vhdx"@
            ||| extension == "vmdk"@
            ||| extension == "vdi"@
            ||| extension == "qcow2"@
        },
{
    reveal_strlit("jar");
    reveal_strlit("war");
    reveal_strlit("ear");
    reveal_strlit("zip");
    reveal_strlit("7z");
    reveal_strlit("rar");
    reveal_strlit("tar");
    reveal_strlit("gz");
    reveal_strlit("tgz");
    reveal_strlit("bz2");
    reveal_strlit("xz");
    reveal_strlit("zst");
    reveal_strlit("lz4");
    reveal_strlit("cab");
    reveal_strlit("whl");
    reveal_strlit("egg");
    reveal_strlit("crate");
    reveal_strlit("nupkg");
    reveal_strlit("deb");
    reveal_strlit("rpm");
    reveal_strlit("apk");
    reveal_strlit("pkg");
    reveal_strlit("msi");
    reveal_strlit("msix");
    reveal_strlit("appx");
    reveal_strlit("iso");
    reveal_strlit("img");
    reveal_strlit("dmg");
    reveal_strlit("vhd");
    reveal_strlit("vhdx");
    reveal_strlit("vmdk");
    reveal_strlit("vdi");
    reveal_strlit("qcow2");
    assert("jar"@.len() == 3 && "jar"@[0] == 'j');
    assert("war"@.len() == 3 && "war"@[0] == 'w' && "war"@[1] == 'a');
    assert("ear"@.len() == 3 && "ear"@[0] == 'e' && "ear"@[1] == 'a');
    assert("zip"@.len() == 3 && "zip"@[0] == 'z');
    assert("7z"@.len() == 2);
    assert("rar"@.len() == 3 && "rar"@[0] == 'r' && "rar"@[1] == 'a');
    assert("tar"@.len() == 3 && "tar"@[0] == 't');
    assert("gz"@.len() == 2);
    assert("tgz"@.len() == 3 && "tgz"@[0] == 't');
    assert("bz2"@.len() == 3 && "bz2"@[0] == 'b');
    assert("xz"@.len() == 2);
    assert("zst"@.len() == 3 && "zst"@[0] == 'z');
    assert("lz4"@.len() == 3 && "lz4"@[0] == 'l');
    assert("cab"@.len() == 3 && "cab"@[0] == 'c');
    assert("whl"@.len() == 3 && "whl"@[0] == 'w' && "whl"@[1] == 'h');
    assert("egg"@.len() == 3 && "egg"@[0] == 'e' && "egg"@[1] == 'g');
    assert("crate"@.len() == 5 && "crate"@[0] == 'c');
    assert("nupkg"@.len() == 5 && "nupkg"@[0] == 'n');
    assert("deb"@.len() == 3 && "deb"@[0] == 'd' && "deb"@[1] == 'e');
    assert("rpm"@.len() == 3 && "rpm"@[0] == 'r' && "rpm"@[1] == 'p');
    assert("apk"@.len() == 3 && "apk"@[0] == 'a');
    assert("pkg"@.len() == 3 && "pkg"@[0] == 'p');
    assert("msi"@.len() == 3 && "msi"@[0] == 'm');
    assert("msix"@.len() == 4 && "msix"@[0] == 'm');
    assert("appx"@.len() == 4 && "appx"@[0] == 'a');
    assert("iso"@.len() == 3 && "iso"@[0] == 'i');
    assert("img"@.len() == 3 && "img"@[0] == 'i');
    assert("dmg"@.len() == 3 && "dmg"@[0] == 'd' && "dmg"@[1] == 'm');
    assert("vhd"@.len() == 3 && "vhd"@[0] == 'v');
    assert("vhdx"@.len() == 4 && "vhdx"@[0] == 'v');
    assert("vmdk"@.len() == 4 && "vmdk"@[0] == 'v');
    assert("vdi"@.len() == 3 && "vdi"@[0] == 'v');
    assert("qcow2"@.len() == 5 && "qcow2"@[0] == 'q');
}

/// Programs and libraries go by these words for these endings, and no other
/// ending is one of them.
pub proof fn lemma_programs(extension: Seq<char>)
    ensures
        ({
            ||| extension == "exe"@
            ||| extension == "com"@
        }) ==> extensions::programs(extension) == Some("Program"@),
        ({
            ||| extension == "dll"@
            ||| extension == "so"@
            ||| extension == "dylib"@
        }) ==> extensions::programs(extension) == Some("Shared library"@),
        ({
            ||| extension == "a"@
            ||| extension == "lib"@
            ||| extension == "rlib"@
        }) ==> extensions::programs(extension) == Some("Static library"@),
        ({
            ||| extension == "o"@
            ||| extension == "obj"@
        }) ==> extensions::programs(extension) == Some("Object file"@),
        extension == "class"@ ==> extensions::programs(extension) == Some("Java class"@),
        ({
            ||| extension == "pyc"@
            ||| extension == "pyo"@
        }) ==> extensions::programs(extension) == Some("Python bytecode"@),
        extension == "wasm"@ ==> extensions::programs(extension) == Some("WebAssembly module"@),
        extension == "pdb"@ ==> extensions::programs(extension) == Some("Debug symbols"@),
        extension == "node"@ ==> extensions::programs(extension) == Some("Node.js add-on"@),
        extensions::programs(extension) is Some <==> {
            ||| extension == "exe"@
            ||| extension == "com"@
            ||| extension == "dll"@
            ||| extension == "so"@
            ||| extension == "dylib"@
            ||| extension == "a"@
            ||| extension == "lib"@
            ||| extension == "rlib"@
            ||| extension == "o"@
            ||| extension == "obj"@
            ||| extension == "class"@
            ||| extension == "pyc"@
            ||| extension == "pyo"@
            ||| extension == "wasm"@
            ||| extension == "pdb"@
            ||| extension == "node"@
        },
{
    reveal_strlit("exe");
    reveal_strlit("com");
    reveal_strlit("dll");
    reveal_strlit("so");
    reveal_strlit("dylib");
    reveal_strlit("a");
    reveal_strlit("lib");
    reveal_strlit("rlib");
    reveal_strlit("o");
    reveal_strlit("obj");
    reveal_strlit("class");
    reveal_strlit("pyc");
    reveal_strlit("pyo");
    reveal_strlit("wasm");
    reveal_strlit("pdb");
    reveal_strlit("node");
    assert("exe"@.len() == 3 && "exe"@[0] == 'e');
    assert("com"@.len() == 3 && "com"@[0] == 'c');
    assert("dll"@.len() == 3 && "dll"@[0] == 'd');
    assert("so"@.len() == 2);
    assert("dylib"@.len() == 5 && "dylib"@[0] == 'd');
    assert("a"@.len() == 1 && "a"@[0] == 'a');
    assert("lib"@.len() == 3 && "lib"@[0] == 'l');
    assert("rlib"@.len() == 4 && "rlib"@[0] == 'r');
    assert("o"@.len() == 1 && "o"@[0] == 'o');
    assert("obj"@.len() == 3 && "obj"@[0] == 'o');
    assert("class"@.len() == 5 && "class"@[0] == 'c');
    assert("pyc"@.len() == 3 && "pyc"@[0] == 'p' && "pyc"@[1] == 'y');
    assert("pyo"@.len() == 3 && "pyo"@[0] == 'p' && "pyo"@[1] == 'y');
    assert("wasm"@.len() == 4 && "wasm"@[0] == 'w');
    assert("pdb"@.len() == 3 && "pdb"@[0] == 'p' && "pdb"@[1] == 'd');
    assert("node"@.len() == 4 && "node"@[0] == 'n');
}

/// Source code goes by these words for these endings, and no other ending is
/// one of them.
pub proof fn lemma_sources(extension: Seq<char>)
    ensures
        extension == "rs"@ ==> extensions::sources(extension) == Some("Rust source"@),
        extension == "py"@ ==> extensions::sources(extension) == Some("Python source"@),
        ({
            ||| extension == "js"@
            ||| extension == "mjs"@
            ||| extension == "cjs"@
        }) ==> extensions::sources(extension) == Some("JavaScript source"@),
        ({
            ||| extension == "ts"@
            ||| extension == "mts"@
            ||| extension == "cts"@
        }) ==> extensions::sources(extension) == Some("TypeScript source"@),
        ({
            ||| extension == "jsx"@
            ||| extension == "tsx"@
        }) ==> extensions::sources(extension) == Some("React source"@),
        extension == "java"@ ==> extensions::sources(extension) == Some("Java source"@),
        ({
            ||| extension == "kt"@
            ||| extension == "kts"@
        }) ==> extensions::sources(extension) == Some("Kotlin source"@),
        extension == "go"@ ==> extensions::sources(extension) == Some("Go source"@),
        ({
            ||| extension == "c"@
            ||| extension == "h"@
        }) ==> extensions::sources(extension) == Some("C source"@),
        ({
            ||| extension == "cc"@
            ||| extension == "cpp"@
            ||| extension == "cxx"@
            ||| extension == "hpp"@
            ||| extension == "hh"@
        }) ==> extensions::sources(extension) == Some("C++ source"@),
        extension == "cs"@ ==> extensions::sources(extension) == Some("C# source"@),
        extension == "swift"@ ==> extensions::sources(extension) == Some("Swift source"@),
        extension == "rb"@ ==> extensions::sources(extension) == Some("Ruby source"@),
        extension == "php"@ ==> extensions::sources(extension) == Some("PHP source"@),
        extensions::sources(extension) is Some <==> {
            ||| extension == "rs"@
            ||| extension == "py"@
            ||| extension == "js"@
            ||| extension == "mjs"@
            ||| extension == "cjs"@
            ||| extension == "ts"@
            ||| extension == "mts"@
            ||| extension == "cts"@
            ||| extension == "jsx"@
            ||| extension == "tsx"@
            ||| extension == "java"@
            ||| extension == "kt"@
            ||| extension == "kts"@
            ||| extension == "go"@
            ||| extension == "c"@
            ||| extension == "h"@
            ||| extension == "cc"@
            ||| extension == "cpp"@
            ||| extension == "cxx"@
            ||| extension == "hpp"@
            ||| extension == "hh"@
            ||| extension == "cs"@
            ||| extension == "swift"@
            ||| extension == "rb"@
            ||| extension == "php"@
        },
{
    reveal_strlit("rs");
    reveal_strlit("py");
    reveal_strlit("js");
    reveal_strlit("mjs");
    reveal_strlit("cjs");
    reveal_strlit("ts");
    reveal_strlit("mts");
    reveal_strlit("cts");
    reveal_strlit("jsx");
    reveal_strlit("tsx");
    reveal_strlit("java");
    reveal_strlit("kt");
    reveal_strlit("kts");
    reveal_strlit("go");
    reveal_strlit("c");
    reveal_strlit("h");
    reveal_strlit("cc");
    reveal_strlit("cpp");
    reveal_strlit("cxx");
    reveal_strlit("hpp");
    reveal_strlit("hh");
    reveal_strlit("cs");
    reveal_strlit("swift");
    reveal_strlit("rb");
    reveal_strlit("php");
    assert("rs"@.len() == 2 && "rs"@[0] == 'r' && "rs"@[1] == 's');
    assert("py"@.len() == 2 && "py"@[0] == 'p');
    assert("js"@.len() == 2 && "js"@[0] == 'j');
    assert("mjs"@.len() == 3 && "mjs"@[1] == 'j');
    assert("cjs"@.len() == 3 && "cjs"@[1] == 'j');
    assert("ts"@.len() == 2 && "ts"@[0] == 't');
    assert("mts"@.len() == 3 && "mts"@[0] == 'm' && "mts"@[1] == 't');
    assert("cts"@.len() == 3 && "cts"@[0] == 'c' && "cts"@[1] == 't');
    assert("jsx"@.len() == 3 && "jsx"@[1] == 's');
    assert("tsx"@.len() == 3 && "tsx"@[1] == 's');
    assert("java"@.len() == 4);
    assert("kt"@.len() == 2 && "kt"@[0] == 'k');
    assert("kts"@.len() == 3 && "kts"@[0] == 'k' && "kts"@[1] == 't');
    assert("go"@.len() == 2 && "go"@[0] == 'g');
    assert("c"@.len() == 1);
    assert("h"@.len() == 1);
    assert("cc"@.len() == 2 && "cc"@[0] == 'c' && "cc"@[1] == 'c');
    assert("cpp"@.len() == 3 && "cpp"@[1] == 'p');
    assert("cxx"@.len() == 3 && "cxx"@[1] == 'x');
    assert("hpp"@.len() == 3 && "hpp"@[1] == 'p');
    assert("hh"@.len() == 2 && "hh"@[0] == 'h');
    assert("cs"@.len() == 2 && "cs"@[0] == 'c' && "cs"@[1] == 's');
    assert("swift"@.len() == 5);
    assert("rb"@.len() == 2 && "rb"@[0] == 'r' && "rb"@[1] == 'b');
    assert("php"@.len() == 3 && "php"@[1] == 'h');
}

/// Scripts and texts go by these words for these endings, and no other ending
/// is one of them.
pub proof fn lemma_texts(extension: Seq<char>)
    ensures
        ({
            ||| extension == "sh"@
            ||| extension == "bash"@
            ||| extension == "zsh"@
            ||| extension == "fish"@
        }) ==> extensions::texts(extension) == Some("Shell script"@),
        ({
            ||| extension == "ps1"@
            ||| extension == "psm1"@
        }) ==> extensions::texts(extension) == Some("PowerShell script"@),
        ({
            ||| extension == "bat"@
            ||| extension == "cmd"@
        }) ==> extensions::texts(extension) == Some("Batch script"@),
        ({
            ||| extension == "html"@
            ||| extension == "htm"@
        }) ==> extensions::texts(extension) == Some("Web page"@),
        ({
            ||| extension == "css"@
            ||| extension == "scss"@
            ||| extension == "sass"@
            ||| extension == "less"@
        }) ==> extensions::texts(extension) == Some("Stylesheet"@),
        ({
            ||| extension == "json"@
            ||| extension == "jsonl"@
            ||| extension == "ndjson"@
        }) ==> extensions::texts(extension) == Some("JSON data"@),
        ({
            ||| extension == "yaml"@
            ||| extension == "yml"@
            ||| extension == "toml"@
            ||| extension == "ini"@
            ||| extension == "cfg"@
            ||| extension == "conf"@
            ||| extension == "xml"@
            ||| extension == "plist"@
        }) ==> extensions::texts(extension) == Some("Settings"@),
        ({
            ||| extension == "md"@
            ||| extension == "markdown"@
            ||| extension == "rst"@
        }) ==> extensions::texts(extension) == Some("Markdown text"@),
        ({
            ||| extension == "txt"@
            ||| extension == "text"@
        }) ==> extensions::texts(extension) == Some("Text"@),
        extension == "log"@ ==> extensions::texts(extension) == Some("Log"@),
        ({
            ||| extension == "csv"@
            ||| extension == "tsv"@
        }) ==> extensions::texts(extension) == Some("Spreadsheet data"@),
        extension == "ipynb"@ ==> extensions::texts(extension) == Some("Notebook"@),
        extension == "map"@ ==> extensions::texts(extension) == Some("Source map"@),
        extensions::texts(extension) is Some <==> {
            ||| extension == "sh"@
            ||| extension == "bash"@
            ||| extension == "zsh"@
            ||| extension == "fish"@
            ||| extension == "ps1"@
            ||| extension == "psm1"@
            ||| extension == "bat"@
            ||| extension == "cmd"@
            ||| extension == "html"@
            ||| extension == "htm"@
            ||| extension == "css"@
            ||| extension == "scss"@
            ||| extension == "sass"@
            ||| extension == "less"@
            ||| extension == "json"@
            ||| extension == "jsonl"@
            ||| extension == "ndjson"@
            ||| extension == "yaml"@
            ||| extension == "yml"@
            ||| extension == "toml"@
            ||| extension == "ini"@
            ||| extension == "cfg"@
            ||| extension == "conf"@
            ||| extension == "xml"@
            ||| extension == "plist"@
            ||| extension == "md"@
            ||| extension == "markdown"@
            ||| extension == "rst"@
            ||| extension == "txt"@
            ||| extension == "text"@
            ||| extension == "log"@
            ||| extension == "csv"@
            ||| extension == "tsv"@
            ||| extension == "ipynb"@
            ||| extension == "map"@
        },
{
    reveal_strlit("sh");
    reveal_strlit("bash");
    reveal_strlit("zsh");
    reveal_strlit("fish");
    reveal_strlit("ps1");
    reveal_strlit("psm1");
    reveal_strlit("bat");
    reveal_strlit("cmd");
    reveal_strlit("html");
    reveal_strlit("htm");
    reveal_strlit("css");
    reveal_strlit("scss");
    reveal_strlit("sass");
    reveal_strlit("less");
    reveal_strlit("json");
    reveal_strlit("jsonl");
    reveal_strlit("ndjson");
    reveal_strlit("yaml");
    reveal_strlit("yml");
    reveal_strlit("toml");
    reveal_strlit("ini");
    reveal_strlit("cfg");
    reveal_strlit("conf");
    reveal_strlit("xml");
    reveal_strlit("plist");
    reveal_strlit("md");
    reveal_strlit("markdown");
    reveal_strlit("rst");
    reveal_strlit("txt");
    reveal_strlit("text");
    reveal_strlit("log");
    reveal_strlit("csv");
    reveal_strlit("tsv");
    reveal_strlit("ipynb");
    reveal_strlit("map");
    assert("sh"@.len() == 2 && "sh"@[0] == 's');
    assert("bash"@.len() == 4 && "bash"@[0] == 'b');
    assert("zsh"@.len() == 3 && "zsh"@[0] == 'z');
    assert("fish"@.len() == 4 && "fish"@[0] == 'f');
    assert("ps1"@.len() == 3 && "ps1"@[0] == 'p');
    assert("psm1"@.len() == 4 && "psm1"@[0] == 'p');
    assert("bat"@.len() == 3 && "bat"@[0] == 'b');
    assert("cmd"@.len() == 3 && "cmd"@[0] == 'c' && "cmd"@[1] == 'm');
    assert("html"@.len() == 4 && "html"@[0] == 'h');
    assert("htm"@.len() == 3 && "htm"@[0] == 'h');
    assert("css"@.len() == 3 && "css"@[0] == 'c' && "css"@[1] == 's' && "css"@[2] == 's');
    assert("scss"@.len() == 4 && "scss"@[0] == 's');
    assert("sass"@.len() == 4 && "sass"@[0] == 's');
    assert("less"@.len() == 4 && "less"@[0] == 'l');
    assert("json"@.len() == 4 && "json"@[0] == 'j');
    assert("jsonl"@.len() == 5 && "jsonl"@[0] == 'j');
    assert("ndjson"@.len() == 6);
    assert("yaml"@.len() == 4 && "yaml"@[0] == 'y');
    assert("yml"@.len() == 3 && "yml"@[0] == 'y');
    assert("toml"@.len() == 4 && "toml"@[0] == 't' && "toml"@[1] == 'o');
    assert("ini"@.len() == 3 && "ini"@[0] == 'i');
    assert("cfg"@.len() == 3 && "cfg"@[0] == 'c' && "cfg"@[1] == 'f');
    assert("conf"@.len() == 4 && "conf"@[0] == 'c');
    assert("xml"@.len() == 3 && "xml"@[0] == 'x');
    assert("plist"@.len() == 5 && "plist"@[0] == 'p');
    assert("md"@.len() == 2 && "md"@[0] == 'm');
    assert("markdown"@.len() == 8);
    assert("rst"@.len() == 3 && "rst"@[0] == 'r');
    assert("txt"@.len() == 3 && "txt"@[0] == 't' && "txt"@[1] == 'x');
    assert("text"@.len() == 4 && "text"@[0] == 't' && "text"@[1] == 'e');
    assert("log"@.len() == 3 && "log"@[0] == 'l');
    assert("csv"@.len() == 3 && "csv"@[0] == 'c' && "csv"@[1] == 's' && "csv"@[2] == 'v');
    assert("tsv"@.len() == 3 && "tsv"@[0] == 't' && "tsv"@[1] == 's');
    assert("ipynb"@.len() == 5 && "ipynb"@[0] == 'i');
    assert("map"@.len() == 3 && "map"@[0] == 'm');
}

/// Data goes by these words for these endings, and no other ending is one of
/// them.
pub proof fn lemma_data(extension: Seq<char>)
    ensures
        ({
            ||| extension == "db"@
            ||| extension == "sqlite"@
            ||| extension == "sqlite3"@
            ||| extension == "mdb"@
            ||| extension == "accdb"@
        }) ==> extensions::data(extension) == Some("Database"@),
        ({
            ||| extension == "arrow"@
            ||| extension == "feather"@
            ||| extension == "avro"@
            ||| extension == "orc"@
        }) ==> extensions::data(extension) == Some("Columnar data"@),
        ({
            ||| extension == "npy"@
            ||| extension == "npz"@
            ||| extension == "h5"@
            ||| extension == "hdf5"@
        }) ==> extensions::data(extension) == Some("Array data"@),
        ({
            ||| extension == "safetensors"@
            ||| extension == "gguf"@
            ||| extension == "ckpt"@
            ||| extension == "pt"@
            ||| extension == "pth"@
            ||| extension == "onnx"@
        }) ==> extensions::data(extension) == Some("AI model"@),
        ({
            ||| extension == "bin"@
            ||| extension == "dat"@
        }) ==> extensions::data(extension) == Some("Binary data"@),
        ({
            ||| extension == "pack"@
            ||| extension == "idx"@
        }) ==> extensions::data(extension) == Some("Git objects"@),
        ({
            ||| extension == "tmp"@
            ||| extension == "temp"@
        }) ==> extensions::data(extension) == Some("Temporary file"@),
        ({
            ||| extension == "bak"@
            ||| extension == "old"@
        }) ==> extensions::data(extension) == Some("Backup"@),
        ({
            ||| extension == "part"@
            ||| extension == "crdownload"@
            ||| extension == "download"@
        }) ==> extensions::data(extension) == Some("Unfinished download"@),
        ({
            ||| extension == "dmp"@
            ||| extension == "mdmp"@
            ||| extension == "hprof"@
            ||| extension == "core"@
        }) ==> extensions::data(extension) == Some("Crash dump"@),
        ({
            ||| extension == "etl"@
            ||| extension == "evtx"@
        }) ==> extensions::data(extension) == Some("Windows event log"@),
        ({
            ||| extension == "ost"@
            ||| extension == "pst"@
        }) ==> extensions::data(extension) == Some("Outlook mailbox"@),
        extensions::data(extension) is Some <==> {
            ||| extension == "db"@
            ||| extension == "sqlite"@
            ||| extension == "sqlite3"@
            ||| extension == "mdb"@
            ||| extension == "accdb"@
            ||| extension == "arrow"@
            ||| extension == "feather"@
            ||| extension == "avro"@
            ||| extension == "orc"@
            ||| extension == "npy"@
            ||| extension == "npz"@
            ||| extension == "h5"@
            ||| extension == "hdf5"@
            ||| extension == "safetensors"@
            ||| extension == "gguf"@
            ||| extension == "ckpt"@
            ||| extension == "pt"@
            ||| extension == "pth"@
            ||| extension == "onnx"@
            ||| extension == "bin"@
            ||| extension == "dat"@
            ||| extension == "pack"@
            ||| extension == "idx"@
            ||| extension == "tmp"@
            ||| extension == "temp"@
            ||| extension == "bak"@
            ||| extension == "old"@
            ||| extension == "part"@
            ||| extension == "crdownload"@
            ||| extension == "download"@
            ||| extension == "dmp"@
            ||| extension == "mdmp"@
            ||| extension == "hprof"@
            ||| extension == "core"@
            ||| extension == "etl"@
            ||| extension == "evtx"@
            ||| extension == "ost"@
            ||| extension == "pst"@
        },
{
    reveal_strlit("db");
    reveal_strlit("sqlite");
    reveal_strlit("sqlite3");
    reveal_strlit("mdb");
    reveal_strlit("accdb");
    reveal_strlit("arrow");
    reveal_strlit("feather");
    reveal_strlit("avro");
    reveal_strlit("orc");
    reveal_strlit("npy");
    reveal_strlit("npz");
    reveal_strlit("h5");
    reveal_strlit("hdf5");
    reveal_strlit("safetensors");
    reveal_strlit("gguf");
    reveal_strlit("ckpt");
    reveal_strlit("pt");
    reveal_strlit("pth");
    reveal_strlit("onnx");
    reveal_strlit("bin");
    reveal_strlit("dat");
    reveal_strlit("pack");
    reveal_strlit("idx");
    reveal_strlit("tmp");
    reveal_strlit("temp");
    reveal_strlit("bak");
    reveal_strlit("old");
    reveal_strlit("part");
    reveal_strlit("crdownload");
    reveal_strlit("download");
    reveal_strlit("dmp");
    reveal_strlit("mdmp");
    reveal_strlit("hprof");
    reveal_strlit("core");
    reveal_strlit("etl");
    reveal_strlit("evtx");
    reveal_strlit("ost");
    reveal_strlit("pst");
    assert("db"@.len() == 2 && "db"@[0] == 'd');
    assert("sqlite"@.len() == 6);
    assert("sqlite3"@.len() == 7 && "sqlite3"@[0] == 's');
    assert("mdb"@.len() == 3 && "mdb"@[0] == 'm');
    assert("accdb"@.len() == 5 && "accdb"@[1] == 'c');
    assert("arrow"@.len() == 5 && "arrow"@[1] == 'r');
    assert("feather"@.len() == 7 && "feather"@[0] == 'f');
    assert("avro"@.len() == 4 && "avro"@[0] == 'a');
    assert("orc"@.len() == 3 && "orc"@[0] == 'o' && "orc"@[1] == 'r');
    assert("npy"@.len() == 3 && "npy"@[0] == 'n');
    assert("npz"@.len() == 3 && "npz"@[0] == 'n');
    assert("h5"@.len() == 2 && "h5"@[0] == 'h');
    assert("hdf5"@.len() == 4 && "hdf5"@[0] == 'h');
    assert("safetensors"@.len() == 11);
    assert("gguf"@.len() == 4 && "gguf"@[0] == 'g');
    assert("ckpt"@.len() == 4 && "ckpt"@[0] == 'c' && "ckpt"@[1] == 'k');
    assert("pt"@.len() == 2 && "pt"@[0] == 'p');
    assert("pth"@.len() == 3 && "pth"@[0] == 'p' && "pth"@[1] == 't');
    assert("onnx"@.len() == 4 && "onnx"@[0] == 'o');
    assert("bin"@.len() == 3 && "bin"@[0] == 'b' && "bin"@[1] == 'i');
    assert("dat"@.len() == 3 && "dat"@[0] == 'd' && "dat"@[1] == 'a');
    assert("pack"@.len() == 4 && "pack"@[0] == 'p' && "pack"@[2] == 'c');
    assert("idx"@.len() == 3 && "idx"@[0] == 'i');
    assert("tmp"@.len() == 3 && "tmp"@[0] == 't');
    assert("temp"@.len() == 4 && "temp"@[0] == 't');
    assert("bak"@.len() == 3 && "bak"@[0] == 'b' && "bak"@[1] == 'a');
    assert("old"@.len() == 3 && "old"@[0] == 'o' && "old"@[1] == 'l');
    assert("part"@.len() == 4 && "part"@[0] == 'p' && "part"@[2] == 'r');
    assert("crdownload"@.len() == 10);
    assert("download"@.len() == 8);
    assert("dmp"@.len() == 3 && "dmp"@[0] == 'd' && "dmp"@[1] == 'm');
    assert("mdmp"@.len() == 4 && "mdmp"@[0] == 'm');
    assert("hprof"@.len() == 5 && "hprof"@[1] == 'p');
    assert("core"@.len() == 4 && "core"@[0] == 'c' && "core"@[1] == 'o');
    assert("etl"@.len() == 3 && "etl"@[0] == 'e');
    assert("evtx"@.len() == 4 && "evtx"@[0] == 'e');
    assert("ost"@.len() == 3 && "ost"@[0] == 'o' && "ost"@[1] == 's');
    assert("pst"@.len() == 3 && "pst"@[0] == 'p' && "pst"@[1] == 's');
}

/// Documents go by these words for these endings, and no other ending is one
/// of them.
pub proof fn lemma_documents(extension: Seq<char>)
    ensures
        extension == "pdf"@ ==> extensions::documents(extension) == Some("PDF document"@),
        ({
            ||| extension == "doc"@
            ||| extension == "docx"@
            ||| extension == "odt"@
            ||| extension == "rtf"@
            ||| extension == "pages"@
        }) ==> extensions::documents(extension) == Some("Document"@),
        ({
            ||| extension == "xls"@
            ||| extension == "xlsx"@
            ||| extension == "ods"@
            ||| extension == "numbers"@
        }) ==> extensions::documents(extension) == Some("Spreadsheet"@),
        ({
            ||| extension == "ppt"@
            ||| extension == "pptx"@
            ||| extension == "odp"@
            ||| extension == "key"@
        }) ==> extensions::documents(extension) == Some("Presentation"@),
        ({
            ||| extension == "epub"@
            ||| extension == "mobi"@
        }) ==> extensions::documents(extension) == Some("E-book"@),
        extensions::documents(extension) is Some <==> {
            ||| extension == "pdf"@
            ||| extension == "doc"@
            ||| extension == "docx"@
            ||| extension == "odt"@
            ||| extension == "rtf"@
            ||| extension == "pages"@
            ||| extension == "xls"@
            ||| extension == "xlsx"@
            ||| extension == "ods"@
            ||| extension == "numbers"@
            ||| extension == "ppt"@
            ||| extension == "pptx"@
            ||| extension == "odp"@
            ||| extension == "key"@
            ||| extension == "epub"@
            ||| extension == "mobi"@
        },
{
    reveal_strlit("pdf");
    reveal_strlit("doc");
    reveal_strlit("docx");
    reveal_strlit("odt");
    reveal_strlit("rtf");
    reveal_strlit("pages");
    reveal_strlit("xls");
    reveal_strlit("xlsx");
    reveal_strlit("ods");
    reveal_strlit("numbers");
    reveal_strlit("ppt");
    reveal_strlit("pptx");
    reveal_strlit("odp");
    reveal_strlit("key");
    reveal_strlit("epub");
    reveal_strlit("mobi");
    assert("pdf"@.len() == 3 && "pdf"@[0] == 'p' && "pdf"@[1] == 'd');
    assert("doc"@.len() == 3 && "doc"@[0] == 'd');
    assert("docx"@.len() == 4 && "docx"@[0] == 'd');
    assert("odt"@.len() == 3 && "odt"@[0] == 'o' && "odt"@[2] == 't');
    assert("rtf"@.len() == 3 && "rtf"@[0] == 'r');
    assert("pages"@.len() == 5);
    assert("xls"@.len() == 3 && "xls"@[0] == 'x');
    assert("xlsx"@.len() == 4 && "xlsx"@[0] == 'x');
    assert("ods"@.len() == 3 && "ods"@[0] == 'o' && "ods"@[2] == 's');
    assert("numbers"@.len() == 7);
    assert("ppt"@.len() == 3 && "ppt"@[0] == 'p' && "ppt"@[1] == 'p');
    assert("pptx"@.len() == 4 && "pptx"@[0] == 'p');
    assert("odp"@.len() == 3 && "odp"@[0] == 'o' && "odp"@[2] == 'p');
    assert("key"@.len() == 3 && "key"@[0] == 'k');
    assert("epub"@.len() == 4 && "epub"@[0] == 'e');
    assert("mobi"@.len() == 4 && "mobi"@[0] == 'm');
}

/// Pictures, sounds and models go by these words for these endings, and no
/// other ending is one of them.
pub proof fn lemma_media(extension: Seq<char>)
    ensures
        ({
            ||| extension == "jpg"@
            ||| extension == "jpeg"@
            ||| extension == "png"@
            ||| extension == "gif"@
            ||| extension == "webp"@
            ||| extension == "bmp"@
            ||| extension == "tif"@
            ||| extension == "tiff"@
            ||| extension == "heic"@
            ||| extension == "heif"@
            ||| extension == "avif"@
            ||| extension == "ico"@
            ||| extension == "svg"@
        }) ==> extensions::media(extension) == Some("Image"@),
        ({
            ||| extension == "raw"@
            ||| extension == "cr2"@
            ||| extension == "cr3"@
            ||| extension == "nef"@
            ||| extension == "arw"@
            ||| extension == "dng"@
            ||| extension == "raf"@
        }) ==> extensions::media(extension) == Some("Camera raw"@),
        ({
            ||| extension == "psd"@
            ||| extension == "psb"@
            ||| extension == "xcf"@
            ||| extension == "kra"@
            ||| extension == "afphoto"@
        }) ==> extensions::media(extension) == Some("Image project"@),
        ({
            ||| extension == "mp4"@
            ||| extension == "mkv"@
            ||| extension == "mov"@
            ||| extension == "avi"@
            ||| extension == "webm"@
            ||| extension == "wmv"@
            ||| extension == "m4v"@
            ||| extension == "flv"@
            ||| extension == "m2ts"@
        }) ==> extensions::media(extension) == Some("Video"@),
        ({
            ||| extension == "mp3"@
            ||| extension == "flac"@
            ||| extension == "wav"@
            ||| extension == "aac"@
            ||| extension == "m4a"@
            ||| extension == "ogg"@
            ||| extension == "opus"@
            ||| extension == "wma"@
            ||| extension == "aiff"@
        }) ==> extensions::media(extension) == Some("Audio"@),
        ({
            ||| extension == "ttf"@
            ||| extension == "otf"@
            ||| extension == "woff"@
            ||| extension == "woff2"@
        }) ==> extensions::media(extension) == Some("Font"@),
        ({
            ||| extension == "blend"@
            ||| extension == "fbx"@
            ||| extension == "stl"@
            ||| extension == "glb"@
            ||| extension == "gltf"@
            ||| extension == "usdz"@
        }) ==> extensions::media(extension) == Some("3D model"@),
        extensions::media(extension) is Some <==> {
            ||| extension == "jpg"@
            ||| extension == "jpeg"@
            ||| extension == "png"@
            ||| extension == "gif"@
            ||| extension == "webp"@
            ||| extension == "bmp"@
            ||| extension == "tif"@
            ||| extension == "tiff"@
            ||| extension == "heic"@
            ||| extension == "heif"@
            ||| extension == "avif"@
            ||| extension == "ico"@
            ||| extension == "svg"@
            ||| extension == "raw"@
            ||| extension == "cr2"@
            ||| extension == "cr3"@
            ||| extension == "nef"@
            ||| extension == "arw"@
            ||| extension == "dng"@
            ||| extension == "raf"@
            ||| extension == "psd"@
            ||| extension == "psb"@
            ||| extension == "xcf"@
            ||| extension == "kra"@
            ||| extension == "afphoto"@
            ||| extension == "mp4"@
            ||| extension == "mkv"@
            ||| extension == "mov"@
            ||| extension == "avi"@
            ||| extension == "webm"@
            ||| extension == "wmv"@
            ||| extension == "m4v"@
            ||| extension == "flv"@
            ||| extension == "m2ts"@
            ||| extension == "mp3"@
            ||| extension == "flac"@
            ||| extension == "wav"@
            ||| extension == "aac"@
            ||| extension == "m4a"@
            ||| extension == "ogg"@
            ||| extension == "opus"@
            ||| extension == "wma"@
            ||| extension == "aiff"@
            ||| extension == "ttf"@
            ||| extension == "otf"@
            ||| extension == "woff"@
            ||| extension == "woff2"@
            ||| extension == "blend"@
            ||| extension == "fbx"@
            ||| extension == "stl"@
            ||| extension == "glb"@
            ||| extension == "gltf"@
            ||| extension == "usdz"@
        },
{
    reveal_strlit("jpg");
    reveal_strlit("jpeg");
    reveal_strlit("png");
    reveal_strlit("gif");
    reveal_strlit("webp");
    reveal_strlit("bmp");
    reveal_strlit("tif");
    reveal_strlit("tiff");
    reveal_strlit("heic");
    reveal_strlit("heif");
    reveal_strlit("avif");
    reveal_strlit("ico");
    reveal_strlit("svg");
    reveal_strlit("raw");
    reveal_strlit("cr2");
    reveal_strlit("cr3");
    reveal_strlit("nef");
    reveal_strlit("arw");
    reveal_strlit("dng");
    reveal_strlit("raf");
    reveal_strlit("psd");
    reveal_strlit("psb");
    reveal_strlit("xcf");
    reveal_strlit("kra");
    reveal_strlit("afphoto");
    reveal_strlit("mp4");
    reveal_strlit("mkv");
    reveal_strlit("mov");
    reveal_strlit("avi");
    reveal_strlit("webm");
    reveal_strlit("wmv");
    reveal_strlit("m4v");
    reveal_strlit("flv");
    reveal_strlit("m2ts");
    reveal_strlit("mp3");
    reveal_strlit("flac");
    reveal_strlit("wav");
    reveal_strlit("aac");
    reveal_strlit("m4a");
    reveal_strlit("ogg");
    reveal_strlit("opus");
    reveal_strlit("wma");
    reveal_strlit("aiff");
    reveal_strlit("ttf");
    reveal_strlit("otf");
    reveal_strlit("woff");
    reveal_strlit("woff2");
    reveal_strlit("blend");
    reveal_strlit("fbx");
    reveal_strlit("stl");
    reveal_strlit("glb");
    reveal_strlit("gltf");
    reveal_strlit("usdz");
    assert("jpg"@.len() == 3 && "jpg"@[0] == 'j');
    assert("jpeg"@.len() == 4 && "jpeg"@[0] == 'j');
    assert("png"@.len() == 3 && "png"@[0] == 'p' && "png"@[1] == 'n');
    assert("gif"@.len() == 3 && "gif"@[0] == 'g' && "gif"@[1] == 'i');
    assert("webp"@.len() == 4 && "webp"@[0] == 'w' && "webp"@[3] == 'p');
    assert("bmp"@.len() == 3 && "bmp"@[0] == 'b');
    assert("tif"@.len() == 3 && "tif"@[0] == 't' && "tif"@[1] == 'i');
    assert("tiff"@.len() == 4 && "tiff"@[0] == 't');
    assert("heic"@.len() == 4 && "heic"@[0] == 'h');
    assert("heif"@.len() == 4 && "heif"@[0] == 'h');
    assert("avif"@.len() == 4 && "avif"@[0] == 'a' && "avif"@[1] == 'v');
    assert("ico"@.len() == 3 && "ico"@[0] == 'i');
    assert("svg"@.len() == 3 && "svg"@[0] == 's' && "svg"@[1] == 'v');
    assert("raw"@.len() == 3 && "raw"@[0] == 'r');
    assert("cr2"@.len() == 3 && "cr2"@[0] == 'c');
    assert("cr3"@.len() == 3 && "cr3"@[0] == 'c');
    assert("nef"@.len() == 3 && "nef"@[0] == 'n');
    assert("arw"@.len() == 3 && "arw"@[0] == 'a' && "arw"@[1] == 'r');
    assert("dng"@.len() == 3 && "dng"@[0] == 'd');
    assert("raf"@.len() == 3 && "raf"@[0] == 'r');
    assert("psd"@.len() == 3 && "psd"@[0] == 'p' && "psd"@[1] == 's');
    assert("psb"@.len() == 3 && "psb"@[0] == 'p' && "psb"@[1] == 's');
    assert("xcf"@.len() == 3 && "xcf"@[0] == 'x');
    assert("kra"@.len() == 3 && "kra"@[0] == 'k');
    assert("afphoto"@.len() == 7);
    assert("mp4"@.len() == 3 && "mp4"@[0] == 'm' && "mp4"@[2] == '4');
    assert("mkv"@.len() == 3 && "mkv"@[0] == 'm' && "mkv"@[2] == 'v');
    assert("mov"@.len() == 3 && "mov"@[0] == 'm' && "mov"@[2] == 'v');
    assert("avi"@.len() == 3 && "avi"@[0] == 'a' && "avi"@[1] == 'v');
    assert("webm"@.len() == 4 && "webm"@[0] == 'w' && "webm"@[3] == 'm');
    assert("wmv"@.len() == 3 && "wmv"@[0] == 'w' && "wmv"@[1] == 'm' && "wmv"@[2] == 'v');
    assert("m4v"@.len() == 3 && "m4v"@[0] == 'm' && "m4v"@[2] == 'v');
    assert("flv"@.len() == 3 && "flv"@[0] == 'f' && "flv"@[1] == 'l');
    assert("m2ts"@.len() == 4 && "m2ts"@[0] == 'm');
    assert("mp3"@.len() == 3 && "mp3"@[0] == 'm' && "mp3"@[2] == '3');
    assert("flac"@.len() == 4 && "flac"@[0] == 'f');
    assert("wav"@.len() == 3 && "wav"@[0] == 'w' && "wav"@[1] == 'a');
    assert("aac"@.len() == 3 && "aac"@[0] == 'a' && "aac"@[1] == 'a');
    assert("m4a"@.len() == 3 && "m4a"@[0] == 'm' && "m4a"@[2] == 'a');
    assert("ogg"@.len() == 3 && "ogg"@[0] == 'o' && "ogg"@[1] == 'g');
    assert("opus"@.len() == 4 && "opus"@[0] == 'o');
    assert("wma"@.len() == 3 && "wma"@[0] == 'w' && "wma"@[2] == 'a');
    assert("aiff"@.len() == 4 && "aiff"@[0] == 'a' && "aiff"@[1] == 'i');
    assert("ttf"@.len() == 3 && "ttf"@[0] == 't' && "ttf"@[1] == 't');
    assert("otf"@.len() == 3 && "otf"@[0] == 'o' && "otf"@[1] == 't');
    assert("woff"@.len() == 4 && "woff"@[0] == 'w' && "woff"@[3] == 'f');
    assert("woff2"@.len() == 5 && "woff2"@[0] == 'w');
    assert("blend"@.len() == 5 && "blend"@[0] == 'b');
    assert("fbx"@.len() == 3 && "fbx"@[0] == 'f' && "fbx"@[1] == 'b');
    assert("stl"@.len() == 3 && "stl"@[0] == 's' && "stl"@[1] == 't');
    assert("glb"@.len() == 3 && "glb"@[0] == 'g' && "glb"@[1] == 'l');
    assert("gltf"@.len() == 4 && "gltf"@[0] == 'g');
    assert("usdz"@.len() == 4 && "usdz"@[0] == 'u');
}

/// An ending is known if one of the tables knows it, and means what that table
/// says where no other does.
pub proof fn lemma_known_somewhere(extension: Seq<char>)
    ensures
        extensions::known_extension(extension) is Some <==> {
            ||| extensions::archives(extension) is Some
            ||| extensions::programs(extension) is Some
            ||| extensions::sources(extension) is Some
            ||| extensions::texts(extension) is Some
            ||| extensions::data(extension) is Some
            ||| extensions::documents(extension) is Some
            ||| extensions::media(extension) is Some
        },
        ({
            &&& extensions::archives(extension) is Some
            &&& extensions::programs(extension) is None
            &&& extensions::sources(extension) is None
            &&& extensions::texts(extension) is None
            &&& extensions::data(extension) is None
            &&& extensions::documents(extension) is None
            &&& extensions::media(extension) is None
        }) ==> extensions::known_extension(extension) == extensions::archives(extension),
        ({
            &&& extensions::programs(extension) is Some
            &&& extensions::archives(extension) is None
            &&& extensions::sources(extension) is None
            &&& extensions::texts(extension) is None
            &&& extensions::data(extension) is None
            &&& extensions::documents(extension) is None
            &&& extensions::media(extension) is None
        }) ==> extensions::known_extension(extension) == extensions::programs(extension),
        ({
            &&& extensions::sources(extension) is Some
            &&& extensions::archives(extension) is None
            &&& extensions::programs(extension) is None
            &&& extensions::texts(extension) is None
            &&& extensions::data(extension) is None
            &&& extensions::documents(extension) is None
            &&& extensions::media(extension) is None
        }) ==> extensions::known_extension(extension) == extensions::sources(extension),
        ({
            &&& extensions::texts(extension) is Some
            &&& extensions::archives(extension) is None
            &&& extensions::programs(extension) is None
            &&& extensions::sources(extension) is None
            &&& extensions::data(extension) is None
            &&& extensions::documents(extension) is None
            &&& extensions::media(extension) is None
        }) ==> extensions::known_extension(extension) == extensions::texts(extension),
        ({
            &&& extensions::data(extension) is Some
            &&& extensions::archives(extension) is None
            &&& extensions::programs(extension) is None
            &&& extensions::sources(extension) is None
            &&& extensions::texts(extension) is None
            &&& extensions::documents(extension) is None
            &&& extensions::media(extension) is None
        }) ==> extensions::known_extension(extension) == extensions::data(extension),
        ({
            &&& extensions::documents(extension) is Some
            &&& extensions::archives(extension) is None
            &&& extensions::programs(extension) is None
            &&& extensions::sources(extension) is None
            &&& extensions::texts(extension) is None
            &&& extensions::data(extension) is None
            &&& extensions::media(extension) is None
        }) ==> extensions::known_extension(extension) == extensions::documents(extension),
        ({
            &&& extensions::media(extension) is Some
            &&& extensions::archives(extension) is None
            &&& extensions::programs(extension) is None
            &&& extensions::sources(extension) is None
            &&& extensions::texts(extension) is None
            &&& extensions::data(extension) is None
            &&& extensions::documents(extension) is None
        }) ==> extensions::known_extension(extension) == extensions::media(extension),
{
}

} // verus!
