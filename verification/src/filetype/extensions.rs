//! What files are by what their names end in.

use vstd::prelude::*;

use crate::text::same;

verus! {

/// What an archive, a package or a disk ending in `extension` is.
pub open spec fn archives(extension: Seq<char>) -> Option<Seq<char>> {
    if extension == "jar"@ || extension == "war"@ || extension == "ear"@ {
        Some("Java archive"@)
    } else if extension == "zip"@ || extension == "7z"@ || extension == "rar"@
        || extension == "tar"@ || extension == "gz"@ || extension == "tgz"@ || extension == "bz2"@
        || extension == "xz"@ || extension == "zst"@ || extension == "lz4"@ || extension == "cab"@ {
        Some("Archive"@)
    } else if extension == "whl"@ || extension == "egg"@ {
        Some("Python package"@)
    } else if extension == "crate"@ {
        Some("Rust package"@)
    } else if extension == "nupkg"@ {
        Some("NuGet package"@)
    } else if extension == "deb"@ || extension == "rpm"@ || extension == "apk"@
        || extension == "pkg"@ || extension == "msi"@ || extension == "msix"@
        || extension == "appx"@ {
        Some("Installer package"@)
    } else if extension == "iso"@ || extension == "img"@ || extension == "dmg"@ {
        Some("Disk image"@)
    } else if extension == "vhd"@ || extension == "vhdx"@ || extension == "vmdk"@
        || extension == "vdi"@ || extension == "qcow2"@ {
        Some("Virtual disk"@)
    } else {
        None
    }
}

/// What an archive, a package or a disk ending in `extension` is.
pub fn find_archives(extension: &str) -> (known: Option<&'static str>)
    ensures
        match known {
            Some(known) => archives(extension@) == Some(known@),
            None => archives(extension@) is None,
        },
{
    if same(extension, "jar") || same(extension, "war") || same(extension, "ear") {
        Some("Java archive")
    } else if same(extension, "zip") || same(extension, "7z") || same(extension, "rar")
        || same(extension, "tar") || same(extension, "gz") || same(extension, "tgz")
        || same(extension, "bz2") || same(extension, "xz") || same(extension, "zst")
        || same(extension, "lz4") || same(extension, "cab") {
        Some("Archive")
    } else if same(extension, "whl") || same(extension, "egg") {
        Some("Python package")
    } else if same(extension, "crate") {
        Some("Rust package")
    } else if same(extension, "nupkg") {
        Some("NuGet package")
    } else if same(extension, "deb") || same(extension, "rpm") || same(extension, "apk")
        || same(extension, "pkg") || same(extension, "msi") || same(extension, "msix")
        || same(extension, "appx") {
        Some("Installer package")
    } else if same(extension, "iso") || same(extension, "img") || same(extension, "dmg") {
        Some("Disk image")
    } else if same(extension, "vhd") || same(extension, "vhdx") || same(extension, "vmdk")
        || same(extension, "vdi") || same(extension, "qcow2") {
        Some("Virtual disk")
    } else {
        None
    }
}

/// What a program or a library ending in `extension` is.
pub open spec fn programs(extension: Seq<char>) -> Option<Seq<char>> {
    if extension == "exe"@ || extension == "com"@ {
        Some("Program"@)
    } else if extension == "dll"@ || extension == "so"@ || extension == "dylib"@ {
        Some("Shared library"@)
    } else if extension == "a"@ || extension == "lib"@ || extension == "rlib"@ {
        Some("Static library"@)
    } else if extension == "o"@ || extension == "obj"@ {
        Some("Object file"@)
    } else if extension == "class"@ {
        Some("Java class"@)
    } else if extension == "pyc"@ || extension == "pyo"@ {
        Some("Python bytecode"@)
    } else if extension == "wasm"@ {
        Some("WebAssembly module"@)
    } else if extension == "pdb"@ {
        Some("Debug symbols"@)
    } else if extension == "node"@ {
        Some("Node.js add-on"@)
    } else {
        None
    }
}

/// What a program or a library ending in `extension` is.
pub fn find_programs(extension: &str) -> (known: Option<&'static str>)
    ensures
        match known {
            Some(known) => programs(extension@) == Some(known@),
            None => programs(extension@) is None,
        },
{
    if same(extension, "exe") || same(extension, "com") {
        Some("Program")
    } else if same(extension, "dll") || same(extension, "so") || same(extension, "dylib") {
        Some("Shared library")
    } else if same(extension, "a") || same(extension, "lib") || same(extension, "rlib") {
        Some("Static library")
    } else if same(extension, "o") || same(extension, "obj") {
        Some("Object file")
    } else if same(extension, "class") {
        Some("Java class")
    } else if same(extension, "pyc") || same(extension, "pyo") {
        Some("Python bytecode")
    } else if same(extension, "wasm") {
        Some("WebAssembly module")
    } else if same(extension, "pdb") {
        Some("Debug symbols")
    } else if same(extension, "node") {
        Some("Node.js add-on")
    } else {
        None
    }
}

/// What source code ending in `extension` is.
pub open spec fn sources(extension: Seq<char>) -> Option<Seq<char>> {
    if extension == "rs"@ {
        Some("Rust source"@)
    } else if extension == "py"@ {
        Some("Python source"@)
    } else if extension == "js"@ || extension == "mjs"@ || extension == "cjs"@ {
        Some("JavaScript source"@)
    } else if extension == "ts"@ || extension == "mts"@ || extension == "cts"@ {
        Some("TypeScript source"@)
    } else if extension == "jsx"@ || extension == "tsx"@ {
        Some("React source"@)
    } else if extension == "java"@ {
        Some("Java source"@)
    } else if extension == "kt"@ || extension == "kts"@ {
        Some("Kotlin source"@)
    } else if extension == "go"@ {
        Some("Go source"@)
    } else if extension == "c"@ || extension == "h"@ {
        Some("C source"@)
    } else if extension == "cc"@ || extension == "cpp"@ || extension == "cxx"@
        || extension == "hpp"@ || extension == "hh"@ {
        Some("C++ source"@)
    } else if extension == "cs"@ {
        Some("C# source"@)
    } else if extension == "swift"@ {
        Some("Swift source"@)
    } else if extension == "rb"@ {
        Some("Ruby source"@)
    } else if extension == "php"@ {
        Some("PHP source"@)
    } else {
        None
    }
}

/// What source code ending in `extension` is.
pub fn find_sources(extension: &str) -> (known: Option<&'static str>)
    ensures
        match known {
            Some(known) => sources(extension@) == Some(known@),
            None => sources(extension@) is None,
        },
{
    if same(extension, "rs") {
        Some("Rust source")
    } else if same(extension, "py") {
        Some("Python source")
    } else if same(extension, "js") || same(extension, "mjs") || same(extension, "cjs") {
        Some("JavaScript source")
    } else if same(extension, "ts") || same(extension, "mts") || same(extension, "cts") {
        Some("TypeScript source")
    } else if same(extension, "jsx") || same(extension, "tsx") {
        Some("React source")
    } else if same(extension, "java") {
        Some("Java source")
    } else if same(extension, "kt") || same(extension, "kts") {
        Some("Kotlin source")
    } else if same(extension, "go") {
        Some("Go source")
    } else if same(extension, "c") || same(extension, "h") {
        Some("C source")
    } else if same(extension, "cc") || same(extension, "cpp") || same(extension, "cxx")
        || same(extension, "hpp") || same(extension, "hh") {
        Some("C++ source")
    } else if same(extension, "cs") {
        Some("C# source")
    } else if same(extension, "swift") {
        Some("Swift source")
    } else if same(extension, "rb") {
        Some("Ruby source")
    } else if same(extension, "php") {
        Some("PHP source")
    } else {
        None
    }
}

/// What a script or a text ending in `extension` is.
pub open spec fn texts(extension: Seq<char>) -> Option<Seq<char>> {
    if extension == "sh"@ || extension == "bash"@ || extension == "zsh"@ || extension == "fish"@ {
        Some("Shell script"@)
    } else if extension == "ps1"@ || extension == "psm1"@ {
        Some("PowerShell script"@)
    } else if extension == "bat"@ || extension == "cmd"@ {
        Some("Batch script"@)
    } else if extension == "html"@ || extension == "htm"@ {
        Some("Web page"@)
    } else if extension == "css"@ || extension == "scss"@ || extension == "sass"@
        || extension == "less"@ {
        Some("Stylesheet"@)
    } else if extension == "json"@ || extension == "jsonl"@ || extension == "ndjson"@ {
        Some("JSON data"@)
    } else if extension == "yaml"@ || extension == "yml"@ || extension == "toml"@
        || extension == "ini"@ || extension == "cfg"@ || extension == "conf"@
        || extension == "xml"@ || extension == "plist"@ {
        Some("Settings"@)
    } else if extension == "md"@ || extension == "markdown"@ || extension == "rst"@ {
        Some("Markdown text"@)
    } else if extension == "txt"@ || extension == "text"@ {
        Some("Text"@)
    } else if extension == "log"@ {
        Some("Log"@)
    } else if extension == "csv"@ || extension == "tsv"@ {
        Some("Spreadsheet data"@)
    } else if extension == "ipynb"@ {
        Some("Notebook"@)
    } else if extension == "map"@ {
        Some("Source map"@)
    } else {
        None
    }
}

/// What a script or a text ending in `extension` is.
pub fn find_texts(extension: &str) -> (known: Option<&'static str>)
    ensures
        match known {
            Some(known) => texts(extension@) == Some(known@),
            None => texts(extension@) is None,
        },
{
    if same(extension, "sh") || same(extension, "bash") || same(extension, "zsh")
        || same(extension, "fish") {
        Some("Shell script")
    } else if same(extension, "ps1") || same(extension, "psm1") {
        Some("PowerShell script")
    } else if same(extension, "bat") || same(extension, "cmd") {
        Some("Batch script")
    } else if same(extension, "html") || same(extension, "htm") {
        Some("Web page")
    } else if same(extension, "css") || same(extension, "scss") || same(extension, "sass")
        || same(extension, "less") {
        Some("Stylesheet")
    } else if same(extension, "json") || same(extension, "jsonl") || same(extension, "ndjson") {
        Some("JSON data")
    } else if same(extension, "yaml") || same(extension, "yml") || same(extension, "toml")
        || same(extension, "ini") || same(extension, "cfg") || same(extension, "conf")
        || same(extension, "xml") || same(extension, "plist") {
        Some("Settings")
    } else if same(extension, "md") || same(extension, "markdown") || same(extension, "rst") {
        Some("Markdown text")
    } else if same(extension, "txt") || same(extension, "text") {
        Some("Text")
    } else if same(extension, "log") {
        Some("Log")
    } else if same(extension, "csv") || same(extension, "tsv") {
        Some("Spreadsheet data")
    } else if same(extension, "ipynb") {
        Some("Notebook")
    } else if same(extension, "map") {
        Some("Source map")
    } else {
        None
    }
}

/// What data ending in `extension` is.
pub open spec fn data(extension: Seq<char>) -> Option<Seq<char>> {
    if extension == "db"@ || extension == "sqlite"@ || extension == "sqlite3"@
        || extension == "mdb"@ || extension == "accdb"@ {
        Some("Database"@)
    } else if extension == "arrow"@ || extension == "feather"@
        || extension == "avro"@ || extension == "orc"@ {
        Some("Columnar data"@)
    } else if extension == "npy"@ || extension == "npz"@ || extension == "h5"@
        || extension == "hdf5"@ {
        Some("Array data"@)
    } else if extension == "safetensors"@ || extension == "gguf"@ || extension == "ckpt"@
        || extension == "pt"@ || extension == "pth"@ || extension == "onnx"@ {
        Some("AI model"@)
    } else if extension == "bin"@ || extension == "dat"@ {
        Some("Binary data"@)
    } else if extension == "pack"@ || extension == "idx"@ {
        Some("Git objects"@)
    } else if extension == "tmp"@ || extension == "temp"@ {
        Some("Temporary file"@)
    } else if extension == "bak"@ || extension == "old"@ {
        Some("Backup"@)
    } else if extension == "part"@ || extension == "crdownload"@ || extension == "download"@ {
        Some("Unfinished download"@)
    } else if extension == "dmp"@ || extension == "mdmp"@ || extension == "hprof"@
        || extension == "core"@ {
        Some("Crash dump"@)
    } else if extension == "etl"@ || extension == "evtx"@ {
        Some("Windows event log"@)
    } else if extension == "ost"@ || extension == "pst"@ {
        Some("Outlook mailbox"@)
    } else {
        None
    }
}

/// What data ending in `extension` is.
pub fn find_data(extension: &str) -> (known: Option<&'static str>)
    ensures
        match known {
            Some(known) => data(extension@) == Some(known@),
            None => data(extension@) is None,
        },
{
    if same(extension, "db") || same(extension, "sqlite") || same(extension, "sqlite3")
        || same(extension, "mdb") || same(extension, "accdb") {
        Some("Database")
    } else if same(extension, "arrow") || same(extension, "feather")
        || same(extension, "avro") || same(extension, "orc") {
        Some("Columnar data")
    } else if same(extension, "npy") || same(extension, "npz") || same(extension, "h5")
        || same(extension, "hdf5") {
        Some("Array data")
    } else if same(extension, "safetensors") || same(extension, "gguf") || same(extension, "ckpt")
        || same(extension, "pt") || same(extension, "pth") || same(extension, "onnx") {
        Some("AI model")
    } else if same(extension, "bin") || same(extension, "dat") {
        Some("Binary data")
    } else if same(extension, "pack") || same(extension, "idx") {
        Some("Git objects")
    } else if same(extension, "tmp") || same(extension, "temp") {
        Some("Temporary file")
    } else if same(extension, "bak") || same(extension, "old") {
        Some("Backup")
    } else if same(extension, "part") || same(extension, "crdownload")
        || same(extension, "download") {
        Some("Unfinished download")
    } else if same(extension, "dmp") || same(extension, "mdmp") || same(extension, "hprof")
        || same(extension, "core") {
        Some("Crash dump")
    } else if same(extension, "etl") || same(extension, "evtx") {
        Some("Windows event log")
    } else if same(extension, "ost") || same(extension, "pst") {
        Some("Outlook mailbox")
    } else {
        None
    }
}

/// What a document ending in `extension` is.
pub open spec fn documents(extension: Seq<char>) -> Option<Seq<char>> {
    if extension == "pdf"@ {
        Some("PDF document"@)
    } else if extension == "doc"@ || extension == "docx"@ || extension == "odt"@
        || extension == "rtf"@ || extension == "pages"@ {
        Some("Document"@)
    } else if extension == "xls"@ || extension == "xlsx"@ || extension == "ods"@
        || extension == "numbers"@ {
        Some("Spreadsheet"@)
    } else if extension == "ppt"@ || extension == "pptx"@ || extension == "odp"@
        || extension == "key"@ {
        Some("Presentation"@)
    } else if extension == "epub"@ || extension == "mobi"@ {
        Some("E-book"@)
    } else {
        None
    }
}

/// What a document ending in `extension` is.
pub fn find_documents(extension: &str) -> (known: Option<&'static str>)
    ensures
        match known {
            Some(known) => documents(extension@) == Some(known@),
            None => documents(extension@) is None,
        },
{
    if same(extension, "pdf") {
        Some("PDF document")
    } else if same(extension, "doc") || same(extension, "docx") || same(extension, "odt")
        || same(extension, "rtf") || same(extension, "pages") {
        Some("Document")
    } else if same(extension, "xls") || same(extension, "xlsx") || same(extension, "ods")
        || same(extension, "numbers") {
        Some("Spreadsheet")
    } else if same(extension, "ppt") || same(extension, "pptx") || same(extension, "odp")
        || same(extension, "key") {
        Some("Presentation")
    } else if same(extension, "epub") || same(extension, "mobi") {
        Some("E-book")
    } else {
        None
    }
}

/// What a picture, a sound or a model ending in `extension` is.
pub open spec fn media(extension: Seq<char>) -> Option<Seq<char>> {
    if extension == "jpg"@ || extension == "jpeg"@ || extension == "png"@ || extension == "gif"@
        || extension == "webp"@ || extension == "bmp"@ || extension == "tif"@
        || extension == "tiff"@ || extension == "heic"@ || extension == "heif"@
        || extension == "avif"@ || extension == "ico"@ || extension == "svg"@ {
        Some("Image"@)
    } else if extension == "raw"@ || extension == "cr2"@ || extension == "cr3"@
        || extension == "nef"@ || extension == "arw"@ || extension == "dng"@
        || extension == "raf"@ {
        Some("Camera raw"@)
    } else if extension == "psd"@ || extension == "psb"@ || extension == "xcf"@
        || extension == "kra"@ || extension == "afphoto"@ {
        Some("Image project"@)
    } else if extension == "mp4"@ || extension == "mkv"@ || extension == "mov"@
        || extension == "avi"@ || extension == "webm"@ || extension == "wmv"@
        || extension == "m4v"@ || extension == "flv"@ || extension == "m2ts"@ {
        Some("Video"@)
    } else if extension == "mp3"@ || extension == "flac"@ || extension == "wav"@
        || extension == "aac"@ || extension == "m4a"@ || extension == "ogg"@
        || extension == "opus"@ || extension == "wma"@ || extension == "aiff"@ {
        Some("Audio"@)
    } else if extension == "ttf"@ || extension == "otf"@ || extension == "woff"@
        || extension == "woff2"@ {
        Some("Font"@)
    } else if extension == "blend"@ || extension == "fbx"@ || extension == "stl"@
        || extension == "glb"@ || extension == "gltf"@ || extension == "usdz"@ {
        Some("3D model"@)
    } else {
        None
    }
}

/// What a picture, a sound or a model ending in `extension` is.
pub fn find_media(extension: &str) -> (known: Option<&'static str>)
    ensures
        match known {
            Some(known) => media(extension@) == Some(known@),
            None => media(extension@) is None,
        },
{
    if same(extension, "jpg") || same(extension, "jpeg") || same(extension, "png")
        || same(extension, "gif") || same(extension, "webp") || same(extension, "bmp")
        || same(extension, "tif") || same(extension, "tiff") || same(extension, "heic")
        || same(extension, "heif") || same(extension, "avif") || same(extension, "ico")
        || same(extension, "svg") {
        Some("Image")
    } else if same(extension, "raw") || same(extension, "cr2") || same(extension, "cr3")
        || same(extension, "nef") || same(extension, "arw") || same(extension, "dng")
        || same(extension, "raf") {
        Some("Camera raw")
    } else if same(extension, "psd") || same(extension, "psb") || same(extension, "xcf")
        || same(extension, "kra") || same(extension, "afphoto") {
        Some("Image project")
    } else if same(extension, "mp4") || same(extension, "mkv") || same(extension, "mov")
        || same(extension, "avi") || same(extension, "webm") || same(extension, "wmv")
        || same(extension, "m4v") || same(extension, "flv") || same(extension, "m2ts") {
        Some("Video")
    } else if same(extension, "mp3") || same(extension, "flac") || same(extension, "wav")
        || same(extension, "aac") || same(extension, "m4a") || same(extension, "ogg")
        || same(extension, "opus") || same(extension, "wma") || same(extension, "aiff") {
        Some("Audio")
    } else if same(extension, "ttf") || same(extension, "otf") || same(extension, "woff")
        || same(extension, "woff2") {
        Some("Font")
    } else if same(extension, "blend") || same(extension, "fbx") || same(extension, "stl")
        || same(extension, "glb") || same(extension, "gltf") || same(extension, "usdz") {
        Some("3D model")
    } else {
        None
    }
}

/// `first`, or else `second`.
pub open spec fn or_else(first: Option<Seq<char>>, second: Option<Seq<char>>) -> Option<Seq<char>> {
    match first {
        Some(known) => Some(known),
        None => second,
    }
}

/// What a file whose name ends in `extension` is, if that says.
pub open spec fn known_extension(extension: Seq<char>) -> Option<Seq<char>> {
    or_else(archives(extension), or_else(programs(extension), or_else(sources(extension), or_else(texts(extension), or_else(data(extension), or_else(documents(extension), media(extension)))))))
}

/// What a file whose name ends in `extension` is, if that says.
pub fn by_extension(extension: &str) -> (known: Option<&'static str>)
    ensures
        match known {
            Some(known) => known_extension(extension@) == Some(known@),
            None => known_extension(extension@) is None,
        },
{
    let known = find_archives(extension);
    if known.is_some() {
        return known;
    }
    let known = find_programs(extension);
    if known.is_some() {
        return known;
    }
    let known = find_sources(extension);
    if known.is_some() {
        return known;
    }
    let known = find_texts(extension);
    if known.is_some() {
        return known;
    }
    let known = find_data(extension);
    if known.is_some() {
        return known;
    }
    let known = find_documents(extension);
    if known.is_some() {
        return known;
    }
    find_media(extension)
}

} // verus!
