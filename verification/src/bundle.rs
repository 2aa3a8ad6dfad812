use crate::text::push_str;
use vstd::prelude::*;

verus! {

/// The application's name, as the bundle and its executable are called.
pub const APP_NAME: &'static str = "Editable";

/// The bundle identifier.
pub const BUNDLE_ID: &'static str = "dev.local.editable";

/// The property list of the application bundle: names, identifier,
/// versions, and the CSV document type that the application edits.
pub fn info_plist() -> (s: String)
    ensures
        s@ == r#"<?xml version="1.0" encoding="UTF-8"?>
<!DOCTYPE plist PUBLIC "-//Apple//DTD PLIST 1.0//EN" "https://www.apple.com/DTDs/PropertyList-1.0.dtd">
<plist version="1.0">
<dict>
  <key>CFBundleDevelopmentRegion</key>
  <string>en</string>
  <key>CFBundleExecutable</key>
  <string>"#@ + APP_NAME@ + r#"</string>
  <key>CFBundleIconFile</key>
  <string>Editable</string>
  <key>CFBundleIdentifier</key>
  <string>"#@ + BUNDLE_ID@ + r#"</string>
  <key>CFBundleInfoDictionaryVersion</key>
  <string>6.0</string>
  <key>CFBundleName</key>
  <string>"#@ + APP_NAME@
            + r#"</string>
  <key>CFBundlePackageType</key>
  <string>APPL</string>
  <key>CFBundleShortVersionString</key>
  <string>0.1.0</string>
  <key>CFBundleVersion</key>
  <string>1</string>
  <key>LSMinimumSystemVersion</key>
  <string>13.0</string>
  <key>NSHighResolutionCapable</key>
  <true/>
  <key>NSPrincipalClass</key>
  <string>NSApplication</string>
  <key>CFBundleDocumentTypes</key>
  <array>
    <dict>
      <key>CFBundleTypeExtensions</key>
      <array><string>csv</string></array>
      <key>CFBundleTypeIconFile</key>
      <string>Editable</string>
      <key>CFBundleTypeName</key>
      <string>CSV Document</string>
      <key>CFBundleTypeRole</key>
      <string>Editor</string>
      <key>LSHandlerRank</key>
      <string>Owner</string>
      <key>LSItemContentTypes</key>
      <array><string>public.comma-separated-values-text</string></array>
    </dict>
  </array>
  <key>UTExportedTypeDeclarations</key>
  <array>
    <dict>
      <key>UTTypeIdentifier</key>
      <string>public.comma-separated-values-text</string>
      <key>UTTypeDescription</key>
      <string>CSV document</string>
      <key>UTTypeConformsTo</key>
      <array><string>public.delimited-values-text</string></array>
      <key>UTTypeTagSpecification</key>
      <dict>
        <key>public.filename-extension</key>
        <array><string>csv</string></array>
        <key>public.mime-type</key>
        <string>text/csv</string>
      </dict>
    </dict>
  </array>
</dict>
</plist>
"#@,
{
    let mut s = String::new();
    push_str(&mut s, r#"<?xml version="1.0" encoding="UTF-8"?>
<!DOCTYPE plist PUBLIC "-//Apple//DTD PLIST 1.0//EN" "https://www.apple.com/DTDs/PropertyList-1.0.dtd">
<plist version="1.0">
<dict>
  <key>CFBundleDevelopmentRegion</key>
  <string>en</string>
  <key>CFBundleExecutable</key>
  <string>"#);
    push_str(&mut s, APP_NAME);
    push_str(&mut s, r#"</string>
  <key>CFBundleIconFile</key>
  <string>Editable</string>
  <key>CFBundleIdentifier</key>
  <string>"#);
    push_str(&mut s, BUNDLE_ID);
    push_str(&mut s, r#"</string>
  <key>CFBundleInfoDictionaryVersion</key>
  <string>6.0</string>
  <key>CFBundleName</key>
  <string>"#);
    push_str(&mut s, APP_NAME);
    push_str(&mut s, r#"</string>
  <key>CFBundlePackageType</key>
  <string>APPL</string>
  <key>CFBundleShortVersionString</key>
  <string>0.1.0</string>
  <key>CFBundleVersion</key>
  <string>1</string>
  <key>LSMinimumSystemVersion</key>
  <string>13.0</string>
  <key>NSHighResolutionCapable</key>
  <true/>
  <key>NSPrincipalClass</key>
  <string>NSApplication</string>
  <key>CFBundleDocumentTypes</key>
  <array>
    <dict>
      <key>CFBundleTypeExtensions</key>
      <array><string>csv</string></array>
      <key>CFBundleTypeIconFile</key>
      <string>Editable</string>
      <key>CFBundleTypeName</key>
      <string>CSV Document</string>
      <key>CFBundleTypeRole</key>
      <string>Editor</string>
      <key>LSHandlerRank</key>
      <string>Owner</string>
      <key>LSItemContentTypes</key>
      <array><string>public.comma-separated-values-text</string></array>
    </dict>
  </array>
  <key>UTExportedTypeDeclarations</key>
  <array>
    <dict>
      <key>UTTypeIdentifier</key>
      <string>public.comma-separated-values-text</string>
      <key>UTTypeDescription</key>
      <string>CSV document</string>
      <key>UTTypeConformsTo</key>
      <array><string>public.delimited-values-text</string></array>
      <key>UTTypeTagSpecification</key>
      <dict>
        <key>public.filename-extension</key>
        <array><string>csv</string></array>
        <key>public.mime-type</key>
        <string>text/csv</string>
      </dict>
    </dict>
  </array>
</dict>
</plist>
"#);
    assert(s@ =~= r#"<?xml version="1.0" encoding="UTF-8"?>
<!DOCTYPE plist PUBLIC "-//Apple//DTD PLIST 1.0//EN" "https://www.apple.com/DTDs/PropertyList-1.0.dtd">
<plist version="1.0">
<dict>
  <key>CFBundleDevelopmentRegion</key>
  <string>en</string>
  <key>CFBundleExecutable</key>
  <string>"#@ + APP_NAME@ + r#"</string>
  <key>CFBundleIconFile</key>
  <string>Editable</string>
  <key>CFBundleIdentifier</key>
  <string>"#@ + BUNDLE_ID@ + r#"</string>
  <key>CFBundleInfoDictionaryVersion</key>
  <string>6.0</string>
  <key>CFBundleName</key>
  <string>"#@ + APP_NAME@ + r#"</string>
  <key>CFBundlePackageType</key>
  <string>APPL</string>
  <key>CFBundleShortVersionString</key>
  <string>0.1.0</string>
  <key>CFBundleVersion</key>
  <string>1</string>
  <key>LSMinimumSystemVersion</key>
  <string>13.0</string>
  <key>NSHighResolutionCapable</key>
  <true/>
  <key>NSPrincipalClass</key>
  <string>NSApplication</string>
  <key>CFBundleDocumentTypes</key>
  <array>
    <dict>
      <key>CFBundleTypeExtensions</key>
      <array><string>csv</string></array>
      <key>CFBundleTypeIconFile</key>
      <string>Editable</string>
      <key>CFBundleTypeName</key>
      <string>CSV Document</string>
      <key>CFBundleTypeRole</key>
      <string>Editor</string>
      <key>LSHandlerRank</key>
      <string>Owner</string>
      <key>LSItemContentTypes</key>
      <array><string>public.comma-separated-values-text</string></array>
    </dict>
  </array>
  <key>UTExportedTypeDeclarations</key>
  <array>
    <dict>
      <key>UTTypeIdentifier</key>
      <string>public.comma-separated-values-text</string>
      <key>UTTypeDescription</key>
      <string>CSV document</string>
      <key>UTTypeConformsTo</key>
      <array><string>public.delimited-values-text</string></array>
      <key>UTTypeTagSpecification</key>
      <dict>
        <key>public.filename-extension</key>
        <array><string>csv</string></array>
        <key>public.mime-type</key>
        <string>text/csv</string>
      </dict>
    </dict>
  </array>
</dict>
</plist>
"#@);
    s
}

/// A number as the four bytes of a big-endian 32-bit field.
pub open spec fn be_u32(n: nat) -> Seq<u8> {
    seq![
        ((n / 0x1000000) % 256) as u8,
        ((n / 0x10000) % 256) as u8,
        ((n / 0x100) % 256) as u8,
        (n % 256) as u8,
    ]
}

/// One image of an ICNS file: its four-byte type, its length counting this
/// eight-byte header, and its data.
pub open spec fn icns_chunk(kind: Seq<u8>, data: Seq<u8>) -> Seq<u8> {
    kind + be_u32(data.len() + 8) + data
}

/// The images of an ICNS file, one after the other.
pub open spec fn icns_chunks(parts: Seq<(Seq<u8>, Seq<u8>)>) -> Seq<u8>
    decreases parts.len(),
{
    if parts.len() == 0 {
        Seq::empty()
    } else {
        icns_chunks(parts.drop_last()) + icns_chunk(parts.last().0, parts.last().1)
    }
}

/// An ICNS file: the `icns` magic, the file's length, then the images.
pub open spec fn icns_file(parts: Seq<(Seq<u8>, Seq<u8>)>) -> Seq<u8> {
    seq![0x69u8, 0x63u8, 0x6Eu8, 0x73u8] + be_u32(icns_chunks(parts).len() + 8) + icns_chunks(parts)
}

/// An image's type and data as plain values.
pub open spec fn part_view(part: (Vec<u8>, Vec<u8>)) -> (Seq<u8>, Seq<u8>) {
    (part.0@, part.1@)
}

/// The ICNS types of the icon set's images and the files they come from,
/// in the order they are written.
pub open spec fn icns_entry_list() -> Seq<(Seq<char>, Seq<char>)> {
    seq![
        ("icp4"@, "icon_16x16.png"@),
        ("icp5"@, "icon_32x32.png"@),
        ("icp6"@, "icon_32x32@2x.png"@),
        ("ic07"@, "icon_128x128.png"@),
        ("ic08"@, "icon_256x256.png"@),
        ("ic09"@, "icon_512x512.png"@),
        ("ic10"@, "icon_512x512@2x.png"@),
    ]
}

/// The ICNS types of the icon set's images and the files they come from.
pub fn icns_entries() -> (r: Vec<(&'static str, &'static str)>)
    ensures
        r@.map_values(|e: (&'static str, &'static str)| (e.0@, e.1@)) == icns_entry_list(),
{
    let r = vec![
        ("icp4", "icon_16x16.png"),
        ("icp5", "icon_32x32.png"),
        ("icp6", "icon_32x32@2x.png"),
        ("ic07", "icon_128x128.png"),
        ("ic08", "icon_256x256.png"),
        ("ic09", "icon_512x512.png"),
        ("ic10", "icon_512x512@2x.png"),
    ];
    assert(r@.map_values(|e: (&'static str, &'static str)| (e.0@, e.1@)) =~= icns_entry_list());
    r
}

/// Appends a number as four big-endian bytes.
fn push_be_u32(out: &mut Vec<u8>, n: u32)
    ensures
        final(out)@ == old(out)@ + be_u32(n as nat),
{
    out.push((n / 0x1000000) as u8);
    out.push(((n / 0x10000) % 256) as u8);
    out.push(((n / 0x100) % 256) as u8);
    out.push((n % 256) as u8);
    assert(final(out)@ =~= old(out)@ + be_u32(n as nat));
}

/// Appends bytes.
fn push_bytes(out: &mut Vec<u8>, data: &Vec<u8>)
    ensures
        final(out)@ == old(out)@ + data@,
{
    let ghost start = out@;
    let mut i: usize = 0;
    while i < data.len()
        invariant
            i <= data@.len(),
            out@ == start + data@.take(i as int),
        decreases data@.len() - i,
    {
        out.push(data[i]);
        assert(data@.take(i + 1) =~= data@.take(i as int).push(data@[i as int]));
        i += 1;
    }
    assert(data@.take(data@.len() as int) =~= data@);
}

/// Writes an ICNS file holding the given images, each a four-byte type and
/// its PNG data, in order. Every length must fit the format's 32-bit fields.
pub fn icns_bytes(parts: &Vec<(Vec<u8>, Vec<u8>)>) -> (r: Vec<u8>)
    requires
        icns_chunks(parts@.map_values(|p: (Vec<u8>, Vec<u8>)| part_view(p))).len() + 8 <= u32::MAX,
        forall|i: int| 0 <= i < parts@.len() ==> (#[trigger] parts@[i]).1@.len() + 8 <= u32::MAX,
    ensures
        r@ == icns_file(parts@.map_values(|p: (Vec<u8>, Vec<u8>)| part_view(p))),
{
    let ghost views = parts@.map_values(|p: (Vec<u8>, Vec<u8>)| part_view(p));
    let mut chunks: Vec<u8> = Vec::new();
    let mut i: usize = 0;
    while i < parts.len()
        invariant
            i <= parts@.len(),
            views == parts@.map_values(|p: (Vec<u8>, Vec<u8>)| part_view(p)),
            forall|k: int| 0 <= k < parts@.len() ==> (#[trigger] parts@[k]).1@.len() + 8 <= u32::MAX,
            chunks@ == icns_chunks(views.take(i as int)),
        decreases parts@.len() - i,
    {
        let kind = &parts[i].0;
        let data = &parts[i].1;
        assert(views.take(i + 1).drop_last() =~= views.take(i as int));
        assert(views.take(i + 1).last() == part_view(parts@[i as int]));
        let ghost before = chunks@;
        push_bytes(&mut chunks, kind);
        push_be_u32(&mut chunks, data.len() as u32 + 8);
        push_bytes(&mut chunks, data);
        assert(chunks@ =~= before + icns_chunk(kind@, data@));
        i += 1;
    }
    assert(views.take(parts@.len() as int) =~= views);
    let mut out: Vec<u8> = Vec::new();
    out.push(0x69u8);
    out.push(0x63u8);
    out.push(0x6Eu8);
    out.push(0x73u8);
    push_be_u32(&mut out, chunks.len() as u32 + 8);
    push_bytes(&mut out, &chunks);
    assert(out@ =~= icns_file(views));
    out
}

} // verus!
