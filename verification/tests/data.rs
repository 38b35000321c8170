//! Bytes and texts: blobs, files, compression, keys, pictures and how things are written.
use daboss::animations::{
    self, Blend, Direction, Easing, FillMode, FrameValue, Opacity, Place, PlayState, Sample, Side,
    TimeChange,
};
use daboss::atomics::{self, BitOp};
use daboss::audio_ctx;
use daboss::base64;
use daboss::calendar;
use daboss::canvas;
use daboss::clipboard::{self, ClipboardItem, DataTransferState};
use daboss::color::{Color, Reading};
use daboss::compression::{self, Algo, ReadStep, StreamState};
use daboss::crypto::{self, CryptoKeyEntry};
use daboss::file::{BlobEntry, BlobPart};
use daboss::fetch;
use daboss::fontloading::{self, FontSet};
use daboss::formdata::{self, FormDataState, FormDataValue};
use daboss::idb;
use daboss::intl::{self, DateTimeFormatOpts, Formats, NumberChoice, NumberFormatOpts};
use daboss::media;
use daboss::mse::{self, MediaRegistry, MediaSourceState};
use daboss::offscreen::{self, ImageData, ImageSource, Images, SourceValue};
use daboss::paint_worklet::{self, PaintWorklets};
use daboss::pattern;
use daboss::pixels::{self, OffscreenSurface};
use daboss::registry::{self, Registry};
use daboss::sort;
use daboss::text;
use daboss::tree::NodeId;

fn hex(b: &[u8]) -> String {
    b.iter().map(|x| format!("{x:02x}")).collect()
}

fn reading(s: &str) -> Option<Reading> {
    let f = s.trim().parse::<f32>().ok()?;
    Some(Reading { byte: f.clamp(0.0, 255.0) as u8, unit: (f.clamp(0.0, 1.0) * 255.0) as u8 })
}

fn css_color(s: &str) -> Option<Color> {
    let parts = paint_worklet::color_components(s);
    let readings: Vec<Option<Reading>> = parts.iter().map(|p| reading(p)).collect();
    paint_worklet::parse_css_color(s, &readings)
}

fn canvas_color(s: &str) -> Option<Color> {
    let parts = canvas::color_components(s);
    let readings: Vec<Option<Reading>> = parts.iter().map(|p| reading(p)).collect();
    canvas::parse_color(s, &readings)
}

#[test]
fn parses_hex_and_rgb_and_keyword_colors() {
    let c = css_color("#ff8800").unwrap();
    assert_eq!((c.r, c.g, c.b), (0xff, 0x88, 0x00));
    let c = css_color("rgb(10, 20, 30)").unwrap();
    assert_eq!((c.r, c.g, c.b), (10, 20, 30));
    let c = css_color("rgba(10, 20, 30, 0.5)").unwrap();
    assert_eq!((c.r, c.g, c.b, c.a), (10, 20, 30, 127));
    let c = css_color("red").unwrap();
    assert_eq!((c.r, c.g, c.b), (255, 0, 0));
    assert!(css_color("not-a-color").is_none());
}

#[test]
fn registry_round_trip() {
    let mut state: PaintWorklets<u32, u32> = PaintWorklets::new();
    paint_worklet::register_paint(&mut state, "checker", 8);
    assert!(paint_worklet::lookup(&state, "checker").is_some());
    assert!(paint_worklet::lookup(&state, "does-not-exist").is_none());
    paint_worklet::clear_all(&mut state);
    assert!(paint_worklet::lookup(&state, "checker").is_none());
}

#[test]
fn invoke_for_runs_paint_method_and_records_fillrect() {
    let mut state: PaintWorklets<u32, (u32, u32, Color)> = PaintWorklets::new();
    paint_worklet::register_paint(&mut state, "fillbox", 1);
    let node = NodeId::from_raw(42);
    assert!(paint_worklet::begin_recording(&mut state, "fillbox"));
    let color = css_color("rgb(11, 22, 33)").unwrap();
    paint_worklet::record_command(&mut state, (50, 60, color));
    paint_worklet::end_recording(&mut state, node, true);
    let cmds = paint_worklet::commands_for(&state, node).expect("commands recorded");
    assert_eq!(cmds.len(), 1);
    assert_eq!((cmds[0].0, cmds[0].1), (50, 60));
    assert_eq!((color.r, color.g, color.b), (11, 22, 33));
    paint_worklet::clear_commands(&mut state);
    assert!(paint_worklet::commands_for(&state, node).is_none());
    assert!(!paint_worklet::begin_recording(&mut state, "unknown"));
    paint_worklet::seed_commands_for(&mut state, node, vec![(1, 2, color), (3, 4, color)]);
    assert_eq!(paint_worklet::commands_for(&state, node).map(|v| v.len()), Some(2));
}

#[test]
fn canvas_colours_have_their_own_notation() {
    assert_eq!(canvas_color(" #12345678 "), Some(Color { r: 0x12, g: 0x34, b: 0x56, a: 0x78 }));
    assert_eq!(canvas_color("#fa0"), Some(Color { r: 255, g: 170, b: 0, a: 255 }));
    assert_eq!(canvas_color("RED"), Some(Color { r: 255, g: 0, b: 0, a: 255 }));
    assert_eq!(canvas_color("rgb(1,2,3)"), Some(Color { r: 1, g: 2, b: 3, a: 255 }));
    assert_eq!(canvas_color("rgb(1,2)"), None);
    assert_eq!(canvas_color("#12"), None);
    assert_eq!(canvas::surface_size(0, 5), (1, 5));
    let mut stack: Vec<u32> = Vec::new();
    canvas::ctx_save(&mut stack, 3);
    assert_eq!(canvas::ctx_restore(&mut stack), Some(3));
    assert_eq!(canvas::ctx_restore(&mut stack), None);
}

#[test]
fn numbers_are_handed_out_one_after_the_other() {
    let mut r: Registry<char> = Registry::new();
    let a = r.insert_next('a');
    let b = r.insert_next('b');
    assert_eq!((a, b), (1, 2));
    assert_eq!(r.get(a), Some(&'a'));
    assert_eq!(r.take(a), Some('a'));
    assert!(!r.has(a) && r.has(b));
    let mut last = u32::MAX;
    assert_eq!(registry::next_id(&mut last), u32::MAX);
    assert_eq!(last, 0);
    assert_eq!(r.skip_id(), 3);
    assert_eq!(r.insert_next('c'), 4);
}

#[test]
fn base64_goes_both_ways() {
    for (plain, coded) in [("", ""), ("f", "Zg=="), ("fo", "Zm8="), ("foo", "Zm9v")] {
        assert_eq!(base64::base64_encode(plain.as_bytes()), coded);
        assert_eq!(base64::base64_decode(coded), Some(plain.as_bytes().to_vec()));
    }
    let all: Vec<u8> = (0..=255).collect();
    assert_eq!(base64::base64_decode(&base64::base64_encode(&all)), Some(all));
    let bytes = vec![0xfb, 0xff, 0xfe, 0xff];
    assert_eq!(base64::base64_encode(&bytes), "+//+/w==");
    for loose in ["+//+/w", " +// +/w\n==", "-__-_w", "-__-_w=="] {
        assert_eq!(base64::base64_decode(loose), Some(bytes.clone()));
    }
}

#[test]
fn blobs_are_kept_sliced_and_shown() {
    let mut blobs: Registry<BlobEntry> = Registry::new();
    let first = daboss::file::store_blob(&mut blobs, b"hello".to_vec(), "text/plain".to_string());
    let joined = daboss::file::collect_blob_parts(
        &blobs,
        &vec![BlobPart::Text("é".to_string()), BlobPart::Blob(first), BlobPart::Bytes(vec![33])],
    );
    assert_eq!(joined, "éhello!".as_bytes());
    assert_eq!(daboss::file::blob_text(&blobs, Some(first)), "hello");
    let part = daboss::file::blob_slice(&mut blobs, Some(first), Some(1), Some(-1), "a/b".to_string());
    assert_eq!(daboss::file::read_blob_bytes(&blobs, part), Some(b"ell".to_vec()));
    assert_eq!(daboss::file::read_blob_entry(&blobs, part).unwrap().mime, "a/b");
    assert_eq!(daboss::file::read_blob_bytes(&blobs, 99), None);
    assert_eq!(
        daboss::file::reader_read_as_data_url(&blobs, Some(first)),
        "data:text/plain;base64,aGVsbG8="
    );
    assert_eq!(daboss::file::reader_read_as_binary_string(&blobs, Some(part)), "ell");
    let broken = daboss::file::store_blob(&mut blobs, vec![b'a', 0xff], String::new());
    assert_eq!(daboss::file::reader_read_as_text(&blobs, Some(broken)), "a\u{fffd}");
    let mut urls: Vec<(String, u32)> = Vec::new();
    let url = daboss::file::url_create_object_url(&mut urls, 12, first);
    assert!(url.starts_with("blob:"));
    assert_eq!(daboss::file::resolve_object_url(&urls, &blobs, &url).unwrap().bytes, b"hello");
    daboss::file::url_revoke_object_url(&mut urls, &url);
    assert!(daboss::file::resolve_object_url(&urls, &blobs, &url).is_none());
    assert_eq!(daboss::file::event_type("onload"), "load");
    let walk: Vec<(String, u32)> =
        daboss::file::reader_events().into_iter().map(|s| (s.handler, s.ready_state)).collect();
    assert_eq!(
        walk,
        vec![
            ("onloadstart".to_string(), 1),
            ("onload".to_string(), 2),
            ("onloadend".to_string(), 2)
        ]
    );
    let stopped = daboss::file::abort_events();
    assert_eq!((stopped[0].handler.as_str(), stopped[0].ready_state), ("onabort", 2));
}

fn through(algo: Algo, decode: bool, data: &[u8], step: usize) -> Vec<u8> {
    let mut s: StreamState<u32> = StreamState::new(algo, decode);
    for piece in data.chunks(step) {
        s.feed_codec(&piece.to_vec());
    }
    s.finish_codec();
    let mut out = Vec::new();
    while let ReadStep::Chunk(mut piece) = s.reader_read() {
        out.append(&mut piece);
    }
    assert!(matches!(s.reader_read(), ReadStep::Done));
    out
}

#[test]
fn compressed_bytes_are_restored() {
    let data: Vec<u8> = (0..5000u32).map(|i| (i * i % 251) as u8).collect();
    for algo in [Algo::Gzip, Algo::Deflate, Algo::DeflateRaw] {
        for step in [1usize, 7, 5000] {
            let packed = through(algo, false, &data, step);
            assert_ne!(packed, data);
            assert_eq!(through(algo, true, &packed, 1), data);
            assert_eq!(through(algo, true, &packed, packed.len()), data);
        }
        assert_eq!(through(algo, true, &through(algo, false, &[], 1), 1), Vec::<u8>::new());
    }
    let packed = through(Algo::Gzip, false, b"abc", 3);
    assert_eq!(packed[..2], [0x1f, 0x8b]);
    let packed = through(Algo::Deflate, false, b"abc", 3);
    assert_eq!(packed[0], 0x78);
    assert_eq!(compression::parse_algo("gzip"), Some(Algo::Gzip));
    assert_eq!(compression::parse_algo("deflate-raw"), Some(Algo::DeflateRaw));
    assert_eq!(compression::parse_algo("zip"), None);
    let mut streams: Registry<StreamState<u32>> = Registry::new();
    assert_eq!(compression::stream_ctor(&mut streams, "deflate", true).ok(), Some(1));
    assert!(compression::stream_ctor(&mut streams, "zip", true).is_err());
}

#[test]
fn readers_that_wait_are_served_in_turn() {
    let mut s: StreamState<char> = StreamState::new(Algo::DeflateRaw, false);
    assert!(matches!(s.reader_read(), ReadStep::Wait));
    s.park_reader('a');
    s.park_reader('b');
    s.park_reader('c');
    s.feed_codec(&b"x".to_vec());
    s.finish_codec();
    let served = s.drain_to_readers();
    let order: Vec<char> = served.iter().map(|r| r.0).collect();
    assert_eq!(order, vec!['a', 'b', 'c']);
    assert!(served[0].1.is_some() && served[1].1.is_some());
    assert!(served[2].1.is_none());
    s.reader_cancel();
    assert!(matches!(s.reader_read(), ReadStep::Done));
}

#[test]
fn digests_are_those_of_the_standard() {
    let abc = b"abc".to_vec();
    assert_eq!(
        hex(&crypto::subtle_digest(Some("SHA-256"), Some(&abc)).unwrap()),
        "ba7816bf8f01cfea414140de5dae2223b00361a396177a9cb410ff61f20015ad"
    );
    assert_eq!(
        hex(&crypto::subtle_digest(Some("sha-1"), Some(&abc)).unwrap()),
        "a9993e364706816aba3e25717850c26c9cd0d89d"
    );
    assert_eq!(crypto::subtle_digest(Some("SHA-384"), Some(&abc)).unwrap().len(), 48);
    assert_eq!(crypto::subtle_digest(Some("SHA-512"), Some(&abc)).unwrap().len(), 64);
    assert_eq!(
        crypto::subtle_digest(None, Some(&abc)).unwrap_err(),
        "digest: missing algorithm"
    );
    assert_eq!(
        crypto::subtle_digest(Some("MD5"), Some(&abc)).unwrap_err(),
        "digest: unsupported algorithm MD5"
    );
    assert_eq!(
        crypto::subtle_digest(Some("SHA-256"), None).unwrap_err(),
        "digest: invalid data"
    );
}

fn imported(keys: &mut Registry<CryptoKeyEntry>, name: &str, raw: &[u8], shown: bool) -> u32 {
    crypto::subtle_import_key(
        keys,
        "raw",
        Some(raw.to_vec()),
        Some(name),
        Some("SHA-256".to_string()),
        shown,
        vec!["sign".to_string()],
    )
    .unwrap()
}

#[test]
fn signatures_are_those_of_the_standard() {
    let mut keys: Registry<CryptoKeyEntry> = Registry::new();
    let key = imported(&mut keys, "HMAC", b"Jefe", true);
    let data = b"what do ya want for nothing?".to_vec();
    let tag = crypto::subtle_sign(&keys, Some("HMAC"), Some(key), Some(&data)).unwrap();
    assert_eq!(hex(&tag), "5bdcc146bf60754e6a042426089575c75a003f089d2739839dec58b964ec3843");
    assert_eq!(
        crypto::subtle_verify(&keys, Some("HMAC"), Some(key), Some(&tag), Some(&data)),
        Ok(true)
    );
    let other = b"something else".to_vec();
    assert_eq!(
        crypto::subtle_verify(&keys, Some("HMAC"), Some(key), Some(&tag), Some(&other)),
        Ok(false)
    );
    assert_eq!(
        crypto::subtle_sign(&keys, None, Some(key), Some(&data)).unwrap_err(),
        "sign: missing algorithm"
    );
    assert_eq!(
        crypto::subtle_sign(&keys, Some("HMAC"), Some(77), Some(&data)).unwrap_err(),
        "sign: invalid key"
    );
    assert_eq!(
        crypto::subtle_sign(&keys, Some("HMAC"), Some(key), None).unwrap_err(),
        "sign: invalid data"
    );
    assert_eq!(
        crypto::subtle_verify(&keys, Some("HMAC"), Some(key), None, Some(&data)).unwrap_err(),
        "verify: invalid signature"
    );
}

#[test]
fn sealed_bytes_are_opened_again() {
    let mut keys: Registry<CryptoKeyEntry> = Registry::new();
    let key = imported(&mut keys, "AES-GCM", &[0u8; 16], true);
    let iv = vec![0u8; 12];
    let empty = crypto::subtle_encrypt(&keys, Some("AES-GCM"), Some(key), Some(&iv), Some(&vec![]))
        .unwrap();
    assert_eq!(hex(&empty), "58e2fccefa7e3061367f1d57a4e7455a");
    let plain = b"attack at dawn".to_vec();
    let sealed =
        crypto::subtle_encrypt(&keys, Some("AES-GCM"), Some(key), Some(&iv), Some(&plain)).unwrap();
    assert_ne!(sealed, plain);
    assert_eq!(
        crypto::subtle_decrypt(&keys, Some("AES-GCM"), Some(key), Some(&iv), Some(&sealed)),
        Ok(plain.clone())
    );
    let mut broken = sealed.clone();
    broken[0] ^= 1;
    assert_eq!(
        crypto::subtle_decrypt(&keys, Some("AES-GCM"), Some(key), Some(&iv), Some(&broken))
            .unwrap_err(),
        "AEAD: open failed"
    );
    assert_eq!(
        crypto::subtle_encrypt(&keys, Some("AES-GCM"), Some(key), Some(&vec![1]), Some(&plain))
            .unwrap_err(),
        "AEAD: iv must be 12 bytes, got 1"
    );
    assert_eq!(
        crypto::subtle_encrypt(&keys, Some("AES-GCM"), Some(key), None, Some(&plain)).unwrap_err(),
        "AEAD: missing iv"
    );
    let odd = imported(&mut keys, "AES-GCM", &[0u8; 5], true);
    assert!(crypto::subtle_encrypt(&keys, Some("AES-GCM"), Some(odd), Some(&iv), Some(&plain))
        .unwrap_err()
        .contains("5-byte key unsupported"));
}

#[test]
fn keys_are_made_and_exported() {
    let mut keys: Registry<CryptoKeyEntry> = Registry::new();
    let key = crypto::subtle_generate_key(
        &mut keys,
        Some("AES-GCM"),
        256,
        None,
        true,
        vec!["encrypt".to_string()],
    )
    .unwrap();
    let raw = crypto::subtle_export_key(&keys, "raw", Some(key)).unwrap();
    assert_eq!(raw.len(), 32);
    assert_ne!(raw, vec![0u8; 32]);
    assert_eq!(crypto::key_length_shown(keys.get(key).unwrap()), Some(256));
    assert_eq!(
        crypto::subtle_export_key(&keys, "jwk", Some(key)).unwrap_err(),
        "exportKey: format 'jwk' not supported"
    );
    let hidden = imported(&mut keys, "HMAC", b"k", false);
    assert_eq!(
        crypto::subtle_export_key(&keys, "raw", Some(hidden)).unwrap_err(),
        "exportKey: key is not extractable"
    );
    assert_eq!(
        crypto::subtle_export_key(&keys, "raw", None).unwrap_err(),
        "exportKey: invalid key"
    );
    assert!(crypto::subtle_generate_key(&mut keys, None, 0, None, true, vec![]).is_err());
    assert!(crypto::subtle_generate_key(&mut keys, Some("RSA"), 0, None, true, vec![]).is_err());
    assert!(crypto::subtle_import_key(&mut keys, "raw", None, Some("HMAC"), None, true, vec![])
        .is_err());
    let id = crypto::complete_key(&mut keys, "HMAC", None, true, vec![], Some(vec![1, 2]));
    assert!(id.is_ok());
    assert_eq!(
        crypto::complete_key(&mut keys, "HMAC", None, true, vec![], None).unwrap_err(),
        "generateKey: rng failure"
    );
}

#[test]
fn random_values_have_their_form() {
    let uuid = crypto::random_uuid().unwrap();
    assert_eq!(uuid.len(), 36);
    assert_eq!(uuid.as_bytes()[14], b'4');
    assert_ne!(uuid, crypto::random_uuid().unwrap());
    let fixed = crypto::format_uuid(&vec![0xffu8; 16]);
    assert_eq!(fixed, "ffffffff-ffff-4fff-bfff-ffffffffffff");
    assert_eq!(crypto::get_random_values(8, 4).unwrap().len(), 8);
    assert!(crypto::get_random_values(8, 1).unwrap().iter().all(|v| *v < 256));
    assert!(crypto::get_random_values(65537, 1).unwrap_err().contains("array too large"));
    assert_eq!(crypto::fill_elements(&vec![1, 2, 3, 4], 2, 2), vec![0x0201, 0x0403]);
}

#[test]
fn keys_become_file_names_and_back() {
    for key in ["", "a", "k/é"] {
        let name = idb::key_to_filename(key);
        assert!(name.chars().all(|c| c.is_ascii_hexdigit()));
        assert_eq!(idb::filename_to_key(&name).as_deref(), Some(key));
    }
    assert_eq!(idb::key_to_filename("ab"), "6162");
    assert_eq!(idb::filename_to_key("6"), None);
    assert_eq!(idb::filename_to_key("zz"), None);
    assert_eq!(idb::filename_to_key("ff"), None);
    assert_eq!(
        idb::store_get_all_keys(&vec!["62".to_string(), "61".to_string(), "x".to_string()]).len(),
        2
    );
}

#[test]
fn form_data_keeps_its_entries_in_order() {
    let mut f = FormDataState::default();
    let word = |s: &str| FormDataValue::String(s.to_string());
    f.formdata_append("a".to_string(), word("1"));
    f.formdata_append("b".to_string(), word("2"));
    f.formdata_append("a".to_string(), word("3"));
    assert_eq!(f.formdata_get_all("a").len(), 2);
    f.formdata_set("a".to_string(), word("4"));
    assert_eq!(f.formdata_get_all("a").len(), 1);
    assert!(matches!(f.formdata_get("a"), Some(FormDataValue::String(s)) if s == "4"));
    f.formdata_delete("a");
    assert!(!f.formdata_has("a") && f.formdata_has("b"));
    f.formdata_append(
        "file".to_string(),
        FormDataValue::Blob {
            bytes: b"xyz".to_vec(),
            filename: "f.txt".to_string(),
            mime: "text/plain".to_string(),
        },
    );
    let (body, kind) = formdata::serialise_formdata(&f, 255);
    let sent = fetch::fetch_form(None, "https://a.b/", Some("post"), &f, 255).ok().unwrap();
    assert_eq!(sent.post.as_ref(), Some(&body));
    assert_eq!(sent.content_type, kind);
    assert!(fetch::fetch_form(None, "https://a.b/", None, &f, 255).ok().unwrap().post.is_none());
    assert!(fetch::fetch_form(None, "nowhere", Some("POST"), &f, 255).is_err());
    let shown = String::from_utf8(body).unwrap();
    assert!(kind.starts_with("multipart/form-data; boundary="));
    let boundary = kind.rsplit('=').next().unwrap();
    assert!(shown.starts_with(&format!("--{boundary}\r\n")));
    assert!(shown.ends_with(&format!("--{boundary}--\r\n")));
    assert!(shown.contains("name=\"b\"\r\n\r\n2\r\n"));
    assert!(shown.contains("filename=\"f.txt\""));
    assert!(shown.contains("xyz"));
    let mut kept: Registry<BlobEntry> = Registry::new();
    let id = daboss::file::store_blob(&mut kept, b"held".to_vec(), String::new());
    let mut urls = Vec::new();
    let address = daboss::file::url_create_object_url(&mut urls, 1, id);
    let answer = fetch::fetch_object(&urls, &kept, &address).unwrap();
    assert!(answer.ok && answer.status == 200 && answer.body == "held" && answer.url == address);
    assert!(fetch::fetch_object(&urls, &kept, "blob:none").is_none());
    let blobs: Registry<BlobEntry> = Registry::new();
    let v = formdata::to_form_value(&blobs, None, "words", None, None);
    assert!(matches!(v, FormDataValue::String(s) if s == "words"));
    let mut seeded = FormDataState::default();
    seeded.seed_from_form(&vec![("n".to_string(), "v".to_string())]);
    assert!(seeded.formdata_has("n"));
}

#[test]
fn what_is_dragged_is_kept_by_format() {
    let mut d = DataTransferState::new();
    assert_eq!(d.drop_effect, "none");
    d.dt_set_data("text", "hello".to_string());
    assert_eq!(d.dt_get_data("text/plain"), "hello");
    assert_eq!(d.dt_get_types(), vec!["text/plain".to_string()]);
    d.dt_set_data("URL", "u".to_string());
    assert_eq!(d.dt_get_types().len(), 2);
    d.dt_clear_data(Some("Text"));
    assert_eq!(d.dt_get_data("text"), "");
    d.dt_clear_data(None);
    assert!(d.dt_get_types().is_empty());
    assert_eq!(clipboard::canonical_format(&clipboard::canonical_format("TEXT")), "text/plain");
    let mut blobs: Registry<BlobEntry> = Registry::new();
    let id = daboss::file::store_blob(&mut blobs, b"abc".to_vec(), "a/b".to_string());
    let files = clipboard::dt_get_files(&blobs, &vec![id, 50]);
    assert_eq!(files.len(), 1);
    assert_eq!((files[0].size, files[0].mime.as_str()), (3, "a/b"));
    let mut own = String::new();
    clipboard::clipboard_write_text(&mut own, "mine");
    assert_eq!(clipboard::clipboard_read_text(&own, None), "mine");
    assert_eq!(clipboard::clipboard_read_text(&own, Some("theirs".to_string())), "theirs");
    let item = ClipboardItem { types: vec!["text/plain".to_string()], text_blob: Some(id) };
    assert_eq!(
        clipboard::clipboard_write_items(&blobs, &vec![item], &mut own),
        Some("abc".to_string())
    );
    assert_eq!(own, "abc");
    let read = clipboard::clipboard_read_items(&mut blobs, &own, None);
    assert_eq!(daboss::file::read_blob_bytes(&blobs, read), Some(b"abc".to_vec()));
}

#[test]
fn fonts_come_from_rules_and_data_urls() {
    assert_eq!(fontloading::strip_url_quoted("url('a.woff')"), "a.woff");
    assert_eq!(
        fontloading::data_url_bytes("data:font/woff;base64,Zm9v"),
        Some(b"foo".to_vec())
    );
    assert_eq!(fontloading::data_url_bytes("https://x/y"), None);
    assert!(fontloading::is_fetched("https://x/y"));
    assert!(!fontloading::is_fetched("data:font/woff;base64,Zm9v"));
    assert_eq!(fontloading::fetched_bytes(200, vec![1]), Some(vec![1]));
    assert_eq!(fontloading::fetched_bytes(404, vec![1]), None);
    let mut set = FontSet::new();
    let rules = vec![
        ("A".to_string(), "data:font/woff;base64,Zm9v".to_string()),
        ("B".to_string(), "b.woff".to_string()),
    ];
    fontloading::register_font_face_css_rules(&mut set, &rules, &vec![None, Some(vec![9])]);
    let mut found = fontloading::registered_font_bytes(&set.fonts);
    found.sort();
    assert_eq!(found.len(), 2);
    assert_eq!(found[1], ("B".to_string(), vec![9]));
    let id = fontloading::font_face_ctor(&mut set.fonts, "C".to_string(), Some(vec![7]));
    assert_eq!(fontloading::current_status_str(&set.fonts, id), "loaded");
    fontloading::mark_font_error(&mut set.fonts, id);
    assert_eq!(fontloading::current_status_str(&set.fonts, id), "error");
    fontloading::document_fonts_add(&mut set.document, 40);
    fontloading::document_fonts_add(&mut set.document, 40);
    assert!(fontloading::document_fonts_has(&set.document, 40));
    assert!(fontloading::document_fonts_delete(&mut set.document, 40));
    assert!(!fontloading::document_fonts_has(&set.document, 40));
}

#[test]
fn media_sources_collect_their_buffers() {
    let mut reg = MediaRegistry::new();
    let ms = mse::media_source_ctor(&mut reg);
    let url = mse::object_url_for(ms);
    let node = NodeId::from_raw(3);
    assert!(mse::try_attach(&mut reg, &url, node));
    assert!(!mse::try_attach(&mut reg, "blob:other", node));
    assert!(!mse::try_attach(&mut reg, "blob:mediasource/999", node));
    assert!(!mse::try_attach(&mut reg, "blob:mediasource/abc", node));
    assert_eq!(reg.sources.get(ms).unwrap().state, MediaSourceState::Open);
    assert_eq!(mse::named_source("blob:mediasource/007"), Some(7));
    assert_eq!(mse::named_source("blob:mediasource/x"), None);
    assert_eq!(mse::ready_state(MediaSourceState::Closed), "closed");
    assert_eq!(mse::ready_state(MediaSourceState::Ended), "ended");
    assert_eq!(mse::state_event(MediaSourceState::Open).as_deref(), Some("sourceopen"));
    assert_eq!(mse::state_event(MediaSourceState::Ended).as_deref(), Some("sourceended"));
    assert!(mse::state_event(MediaSourceState::Closed).is_none());
    assert_eq!(mse::append_events(), ("update".to_string(), "updateend".to_string()));
    let a = mse::ms_add_source_buffer(&mut reg, ms, "video/mp4".to_string());
    let b = mse::ms_add_source_buffer(&mut reg, ms, "audio/mp4".to_string());
    mse::sb_append_buffer(&mut reg, a, b"one");
    mse::sb_append_buffer(&mut reg, b, b"two");
    mse::sb_append_buffer(&mut reg, a, b"!");
    assert_eq!(mse::ms_get_source_buffers(&reg, ms), vec![a, b]);
    mse::sb_change_type(&mut reg, b, "x/y".to_string());
    assert_eq!(reg.buffers.get(b).unwrap().mime, "x/y");
    let ended = mse::ms_end_of_stream(&mut reg, ms);
    assert!(ended.known);
    assert_eq!(ended.bytes, b"one!two");
    assert_eq!(ended.video, Some(node));
    mse::ms_remove_source_buffer(&mut reg, ms, a);
    assert_eq!(mse::ms_get_source_buffers(&reg, ms), vec![b]);
    assert!(!mse::ms_end_of_stream(&mut reg, 99).known);
}

#[test]
fn animations_read_their_options() {
    assert_eq!(animations::parse_easing("ease-in"), Easing::EaseIn);
    assert_eq!(animations::parse_easing("?"), Easing::Linear);
    assert_eq!(animations::parse_direction("alternate"), Direction::Alternate);
    assert_eq!(animations::parse_fill("both"), FillMode::Both);
    assert_eq!(animations::play_state_str(PlayState::Running), "running");
    assert!(animations::runs_forward(Direction::Alternate, 0));
    assert!(!animations::runs_forward(Direction::Alternate, 1));
    assert_eq!(animations::camel_to_kebab("fontSize"), "font-size");
    assert_eq!(animations::anim_pause(PlayState::Running).0, PlayState::Paused);
    assert_eq!(animations::anim_finish(PlayState::Running), (PlayState::Finished, TimeChange::JumpToEnd));
    assert_eq!(animations::finish_handler(), "onfinish");
    assert_eq!(animations::anim_cancel(), ("cancelled".to_string(), "oncancel".to_string()));
    assert_eq!(
        animations::split_number_unit("12.5px"),
        Some(("12.5".to_string(), "px".to_string()))
    );
    assert_eq!(animations::split_number_unit("px"), None);
    let c = animations::parse_color("#102030").unwrap();
    assert_eq!((c.r, c.g, c.b), (0x10, 0x20, 0x30));
    assert!(matches!(c.opacity, Opacity::Full));
}

#[test]
fn animations_are_sampled_between_their_keyframes() {
    let own = vec![
        ("offset".to_string(), "0".to_string()),
        ("easing".to_string(), "ease".to_string()),
        ("composite".to_string(), "add".to_string()),
        ("fontSize".to_string(), "1px".to_string()),
    ];
    let props = animations::keyframe_properties(&own);
    assert_eq!(props, vec![("font-size".to_string(), "1px".to_string())]);
    let value = |frame: usize, name: &str, value: &str| FrameValue {
        frame,
        name: name.to_string(),
        value: value.to_string(),
    };
    let values = vec![value(0, "top", "0px"), value(0, "left", "1px"), value(1, "top", "9px")];
    assert_eq!(animations::animated_properties(&values), vec!["top", "left"]);
    assert_eq!(animations::property_places(&values, "top"), vec![0, 2]);
    assert_eq!(animations::property_places(&values, "color"), Vec::<usize>::new());
    let sides = |offsets: &[i32], t: i32| -> Vec<Side> {
        offsets.iter().map(|o| Side { not_past: t <= *o, reached: t >= *o }).collect()
    };
    assert_eq!(animations::sample_property(&sides(&[], 5)), Place::Nowhere);
    assert_eq!(animations::sample_property(&sides(&[0, 4, 10], 0)), Place::At(0));
    assert_eq!(animations::sample_property(&sides(&[0, 4, 10], 10)), Place::At(2));
    assert_eq!(animations::sample_property(&sides(&[0, 4, 10], 4)), Place::After(0));
    assert_eq!(animations::sample_property(&sides(&[0, 4, 10], 5)), Place::After(1));
}

#[test]
fn values_blend_as_numbers_or_colours_or_snap() {
    match animations::interpolate_strings("10px", " 20 px", true) {
        Blend::Numbers { from, to, unit } => {
            assert_eq!((from.as_str(), to.as_str(), unit.as_str()), ("10", "20", "px"));
        }
        _ => panic!("numbers"),
    }
    assert!(matches!(animations::interpolate_strings("10px", "20em", true), Blend::Snap));
    assert!(matches!(animations::interpolate_strings("1-px", "2px", false), Blend::Snap));
    match animations::interpolate_strings("#000", "rgb(1, 2, 3)", false) {
        Blend::Colors { start, end } => {
            assert_eq!((start.r, start.g, start.b), (0, 0, 0));
            assert_eq!((end.r, end.g, end.b), (1, 2, 3));
        }
        _ => panic!("colours"),
    }
    assert!(matches!(animations::interpolate_strings("none", "block", false), Blend::Snap));
}

#[test]
fn animations_show_nothing_before_their_delay_unless_they_fill() {
    let at = |state, fill, waits, n, over| {
        animations::sample(state, fill, Direction::Alternate, waits, n, over)
    };
    let run = PlayState::Running;
    assert_eq!(at(run, FillMode::Both, true, 0, false), Sample::Start);
    assert_eq!(at(run, FillMode::Forwards, true, 0, false), Sample::Nothing);
    assert_eq!(at(run, FillMode::NoFill, false, 1, false), Sample::Within { forward: false });
    assert_eq!(at(PlayState::Paused, FillMode::NoFill, false, 2, true), Sample::End { forward: true });
    assert_eq!(at(PlayState::Finished, FillMode::Both, false, 2, true), Sample::Nothing);
}

#[test]
fn patterns_fit_whole_values() {
    assert!(pattern::pattern_matches("[abc]+\\d?", "abc1"));
    assert!(!pattern::pattern_matches("[abc]+", "abcd"));
    assert!(pattern::pattern_matches("^[a-c]$", "-"));
    assert!(pattern::pattern_matches("(foo|bar)*", "foobarfoo"));
    assert!(!pattern::pattern_matches("a+a", "a"));
    assert!(pattern::pattern_matches("a+a", "aa"));
    assert!(pattern::pattern_matches(".*", ""));
    assert!(pattern::pattern_matches("\\w\\s.", "x !"));
}

#[test]
fn texts_are_put_in_order() {
    let v = vec!["b".to_string(), "".to_string(), "ab".to_string(), "a".to_string()];
    assert_eq!(sort::sort_texts(v), vec!["", "a", "ab", "b"]);
    assert!(sort::comes_before("a", "é"));
    assert_eq!(
        sort::sort_flags(vec![("z".to_string(), true), ("a".to_string(), false)])[0].0,
        "a"
    );
    assert_eq!(text::lower_text("ÀB"), "Àb");
}

#[test]
fn numbers_are_written_as_options_ask() {
    assert_eq!(intl::group_thousands("1234567.891"), "1,234,567.891");
    assert_eq!(intl::group_thousands("-123"), "-123");
    assert_eq!(intl::group_thousands("-1234"), "-1,234");
    let choice = |style: Option<&str>, currency: Option<&str>, min, max| {
        NumberFormatOpts::chosen(NumberChoice {
            style: style.map(|s| s.to_string()),
            currency: currency.map(|s| s.to_string()),
            minimum_fraction_digits: min,
            maximum_fraction_digits: max,
            use_grouping: None,
        })
    };
    let plain = choice(None, None, None, None);
    assert_eq!(intl::fraction_digits(&plain), 3);
    assert_eq!(intl::format_number("1234.500", &plain), "1,234.500");
    let money = choice(Some("currency"), Some("eur"), None, None);
    assert_eq!(intl::fraction_digits(&money), 2);
    assert_eq!(intl::format_number("1234.50", &money), "€1,234.50");
    let odd = choice(Some("currency"), Some("XYZ"), None, None);
    assert_eq!(intl::format_number("1.00", &odd), "XYZ 1.00");
    let none = choice(Some("currency"), Some(""), None, None);
    assert_eq!(intl::format_number("1.00", &none), "$ 1.00");
    let share = choice(Some("percent"), None, Some(1), Some(0));
    assert!(intl::is_percent(&share));
    assert_eq!(intl::fraction_digits(&share), 1);
    assert_eq!(intl::format_number("12.5", &share), "12.5%");
    let unknown = NumberFormatOpts::unknown();
    assert_eq!(intl::format_number("1234", &unknown), "1234");
    assert_eq!(intl::currency_glyph("GBP"), "£");
    let mut formats = Formats::new();
    assert_eq!(formats.intl_number_format_ctor(plain), 1);
    assert_eq!(formats.intl_datetime_format_ctor(DateTimeFormatOpts::unknown()), 2);
    assert!(formats.number_format(1).is_some() && formats.number_format(2).is_none());
    assert!(formats.datetime_format(2).is_some() && formats.datetime_format(1).is_none());
}

#[test]
fn days_are_those_of_the_calendar() {
    let c = intl::ms_to_civil(0);
    assert_eq!((c.year, c.month, c.day, c.hour, c.minute, c.second), (1970, 1, 1, 0, 0, 0));
    let c = intl::ms_to_civil(951_827_696_000);
    assert_eq!((c.year, c.month, c.day, c.hour, c.minute, c.second), (2000, 2, 29, 12, 34, 56));
    let c = intl::ms_to_civil(-1);
    assert_eq!((c.year, c.month, c.day, c.hour, c.minute, c.second), (1969, 12, 31, 23, 59, 59));
    assert_eq!(calendar::civil_of_days(-719_528), (0, 1, 1));
    assert_eq!(calendar::civil_of_days(19_782), (2024, 2, 29));
    assert_eq!(calendar::div_floor(-7, 2), -4);
    assert_eq!(intl::weekday_name(intl::weekday_of(0)), "Thursday");
    let mut o = DateTimeFormatOpts::unknown();
    assert_eq!(intl::format_date(951_827_696_000, &o), "02/29/2000");
    o.weekday = Some("long".to_string());
    o.month = Some("short".to_string());
    o.day = Some("numeric".to_string());
    o.year = Some("2-digit".to_string());
    o.hour = Some("x".to_string());
    o.second = Some("x".to_string());
    assert_eq!(intl::format_date(951_827_696_000, &o), "Tuesday, Feb 29, 00, 12:34:56");
    o.month = Some("long".to_string());
    o.year = Some("numeric".to_string());
    o.weekday = None;
    o.hour = None;
    o.second = None;
    assert_eq!(intl::format_date(-62_198_755_200_000, &o), "January 1, -001");
    assert_eq!(intl::long_month(13), "");
    assert_eq!(intl::short_month(9), "Sep");
}

#[test]
fn lists_spans_and_tags_are_written() {
    let list = |v: &[&str]| {
        intl::list_format(&v.iter().map(|s| s.chars().collect::<Vec<char>>()).collect())
    };
    assert_eq!(list(&[]), "");
    assert_eq!(list(&["a"]), "a");
    assert_eq!(list(&["a", "b"]), "a and b");
    assert_eq!(list(&["a", "b", "c"]), "a, b, and c");
    assert_eq!(intl::rtf_format(0, &None), "now");
    assert_eq!(intl::rtf_format(-1, &Some("days".to_string())), "1 day ago");
    assert_eq!(intl::rtf_format(3, &None), "in 3 seconds");
    assert_eq!(intl::rtf_format(i64::MIN, &None), "9223372036854775808 seconds ago");
    let tag = |s: &str| intl::split_tag(s);
    assert_eq!(tag("en-Latn-US"), ("en".to_string(), "US".to_string()));
    assert_eq!(tag("de"), ("de".to_string(), String::new()));
    assert_eq!(
        intl::segment(" é  bc "),
        vec![("é".to_string(), 0), ("bc".to_string(), 3)]
    );
    let some = |s: &str| Some(s.to_string());
    assert_eq!(intl::collate(&some("a"), &some("b")), -1);
    assert_eq!(intl::collate(&some("b"), &some("a")), 1);
    assert_eq!(intl::collate(&some("a"), &some("a")), 0);
    assert_eq!(intl::collate(&None, &some("a")), 0);
}

#[test]
fn canvases_are_cleared_up_to_their_edges() {
    let mut s = OffscreenSurface::new(3, 2).unwrap();
    let red = Color { r: 255, g: 0, b: 0, a: 255 };
    pixels::fill_rect(&mut s, 0, 0, 3, 2, red, 255);
    canvas::ctx_clear_rect(&mut s, -5, -5, 2, 1);
    assert_eq!(
        pixels::read_rect(&s, 0, 0, 3, 1),
        vec![0, 0, 0, 0, 0, 0, 0, 0, 255, 0, 0, 255]
    );
    assert_eq!(pixels::read_rect(&s, 0, 1, 1, 1), vec![255, 0, 0, 255]);
    canvas::ctx_clear_rect(&mut s, 2, 1, 1, 9);
    assert_eq!(pixels::read_rect(&s, 2, 1, 1, 1), vec![255, 0, 0, 255]);
    canvas::ctx_clear_rect(&mut s, 0, 0, 99, 99);
    assert_eq!(pixels::read_rect(&s, 0, 1, 3, 1), vec![0; 12]);
}

#[test]
fn pictures_go_in_and_come_out() {
    let mut s = OffscreenSurface::new(3, 2).unwrap();
    assert_eq!(s.pixmap.data().len(), 24);
    assert!(OffscreenSurface::new(0, 2).is_none());
    let red = Color { r: 255, g: 0, b: 0, a: 255 };
    pixels::fill_rect(&mut s, -1, 0, 2, 9, red, 255);
    assert_eq!(pixels::read_rect(&s, 0, 0, 2, 1), vec![255, 0, 0, 255, 0, 0, 0, 0]);
    assert_eq!(pixels::read_rect(&s, 0, 1, 1, 1), vec![255, 0, 0, 255]);
    let half = Color { r: 200, g: 100, b: 0, a: 255 };
    pixels::fill_rect(&mut s, 1, 0, 1, 1, half, 128);
    assert_eq!(s.pixmap.data()[4..8], [100, 50, 0, 128]);
    assert_eq!(pixels::straighten(Color { r: 100, g: 50, b: 0, a: 128 }).r, 199);
    let src = [1u8, 2, 3, 255, 4, 5, 6, 255];
    pixels::blit_straight_rgba(&mut s, &src, 2, 1, 1, 1);
    assert_eq!(pixels::read_rect(&s, 1, 1, 2, 1), src.to_vec());
    assert_eq!(pixels::read_rect(&s, 5, 5, 1, 1), vec![0, 0, 0, 0]);
    assert!(pixels::read_rect(&s, 0, 0, -1, 3).is_empty());
    pixels::blit_scaled(&mut s, &src, 2, 1, 0, 0, &[1, 0, 1], &[0]);
    assert_eq!(
        pixels::read_rect(&s, 0, 0, 3, 1),
        vec![4, 5, 6, 255, 1, 2, 3, 255, 4, 5, 6, 255]
    );
    assert_eq!(pixels::unpremultiply_rgba(&[0, 0, 0, 0, 50, 0, 0, 100, 9]).len(), 8);
    assert_eq!(pixels::premultiply(half), half);
}

#[test]
fn offscreen_canvases_are_drawn_and_transferred() {
    let mut images = Images::new();
    let mut blobs: Registry<BlobEntry> = Registry::new();
    let c = images.offscreen_ctor(2, 0).unwrap();
    assert_eq!(offscreen::offscreen_size(&images, c), (2, 1));
    assert_eq!(offscreen::offscreen_size(&images, 90), (1, 1));
    let err = images.offscreen_ctor(u32::MAX, 1).unwrap_err();
    assert_eq!(err, "OffscreenCanvas: pixmap alloc failed");
    let green = offscreen::fill_color("green", None);
    offscreen::off_ctx_fill_rect(&mut images, c, 0, 0, 1, 1, green, 255);
    let seen = offscreen::off_ctx_get_image_data(&images, c, 0, 0, 2, 1);
    assert_eq!(seen.data, vec![0, 128, 0, 255, 0, 0, 0, 0]);
    assert_eq!((seen.width, seen.height), (2, 1));
    let blob = offscreen::offscreen_convert_to_blob(&images, &mut blobs, c);
    let png = daboss::file::read_blob_bytes(&blobs, blob).unwrap();
    assert_eq!(png[1..4], *b"PNG");
    // The file that was made is a picture again, with the pixels of the canvas.
    let back = offscreen::create_image_bitmap(
        &mut images,
        &blobs,
        &Some(SourceValue { bitmap: None, canvas: None, blob: Some(blob), pixels: None, bytes: vec![] }),
    )
    .unwrap();
    assert_eq!(offscreen::image_bitmap_size(&images, back), (2, 1));
    let entry = offscreen::source_image(&images, ImageSource::Bitmap(back)).unwrap();
    assert_eq!(entry.rgba, vec![0, 128, 0, 255, 0, 0, 0, 0]);
    let moved = offscreen::offscreen_transfer_to_image_bitmap(&mut images, c).unwrap();
    assert_eq!(offscreen::off_ctx_get_image_data(&images, c, 0, 0, 1, 1).data, vec![0; 4]);
    offscreen::off_ctx_draw_image(&mut images, c, ImageSource::Bitmap(moved), 1, 0, &[0], &[0]);
    assert_eq!(
        offscreen::off_ctx_get_image_data(&images, c, 1, 0, 1, 1).data,
        vec![0, 128, 0, 255]
    );
    offscreen::off_ctx_clear_rect(&mut images, c, 0, 0, 9, 9);
    offscreen::off_ctx_put_image_data(&mut images, c, &[7, 8, 9, 255], 1, 1, 0, 0);
    assert_eq!(
        offscreen::off_ctx_get_image_data(&images, c, 0, 0, 2, 1).data,
        vec![7, 8, 9, 255, 0, 0, 0, 0]
    );
    let copy = offscreen::create_image_bitmap(
        &mut images,
        &blobs,
        &Some(SourceValue { bitmap: Some(moved), canvas: None, blob: None, pixels: None, bytes: vec![] }),
    )
    .unwrap();
    offscreen::image_bitmap_close(&mut images, moved);
    assert_eq!(offscreen::image_bitmap_size(&images, moved), (0, 0));
    assert_eq!(offscreen::image_bitmap_size(&images, copy), (2, 1));
    assert!(offscreen::offscreen_get_context("2D") && !offscreen::offscreen_get_context("webgl"));
    assert_eq!(offscreen::offscreen_transfer_to_image_bitmap(&mut images, 90), None);
    let missing = offscreen::create_image_bitmap(&mut images, &blobs, &None).unwrap_err();
    assert_eq!(missing, "createImageBitmap: missing source");
    let value = |b: Vec<u8>| Some(SourceValue { bitmap: None, canvas: None, blob: None, pixels: None, bytes: b });
    let nothing =
        offscreen::create_image_bitmap(&mut images, &blobs, &value(vec![])).unwrap_err();
    assert_eq!(nothing, "createImageBitmap: unsupported source");
    let wrong =
        offscreen::create_image_bitmap(&mut images, &blobs, &value(vec![1, 2, 3])).unwrap_err();
    assert!(wrong.starts_with("createImageBitmap decode: "));
    assert!(wrong.len() > "createImageBitmap decode: ".len());
    let pixels = |width: u32, height: u32, data: Vec<u8>| {
        let pixels = Some(ImageData { width, height, data });
        Some(SourceValue { bitmap: None, canvas: None, blob: None, pixels, bytes: vec![] })
    };
    let given =
        offscreen::create_image_bitmap(&mut images, &blobs, &pixels(1, 2, vec![9; 8])).unwrap();
    assert_eq!(offscreen::image_bitmap_size(&images, given), (1, 2));
    let torn =
        offscreen::create_image_bitmap(&mut images, &blobs, &pixels(1, 2, vec![9; 7])).unwrap_err();
    assert_eq!(torn, "createImageBitmap: unsupported source");
    let snapshot = offscreen::create_image_bitmap(
        &mut images,
        &blobs,
        &Some(SourceValue { bitmap: None, canvas: Some(c), blob: None, pixels: None, bytes: vec![] }),
    )
    .unwrap();
    assert_eq!(offscreen::image_bitmap_size(&images, snapshot), (2, 1));
    assert_eq!(
        offscreen::place_decoded(&mut images, Err("bad".to_string())).unwrap_err(),
        "createImageBitmap decode: bad"
    );
}

#[test]
fn old_pictures_go_when_there_are_too_many() {
    let mut images = Images::new();
    let c = images.offscreen_ctor(1, 1).unwrap();
    let half = offscreen::OFFSCREEN_TOTAL_BYTE_CAP / 2;
    let a = offscreen::store_image_bitmap(&mut images, 5, 5, vec![0; half]);
    assert_eq!(offscreen::image_bitmap_size(&images, a), (5, 5));
    let b = offscreen::store_image_bitmap(&mut images, 6, 6, vec![0; half]);
    // The canvas had to go, and both bitmaps fit.
    assert_eq!(offscreen::off_ctx_get_image_data(&images, c, 0, 0, 1, 1).data, Vec::<u8>::new());
    assert_eq!(offscreen::image_bitmap_size(&images, a), (5, 5));
    let d = offscreen::store_image_bitmap(&mut images, 7, 7, vec![0; 1]);
    assert_eq!(offscreen::image_bitmap_size(&images, a), (0, 0));
    assert_eq!(offscreen::image_bitmap_size(&images, b), (6, 6));
    assert_eq!(offscreen::image_bitmap_size(&images, d), (7, 7));
    // A copy counts like any other bitmap.
    let copy = SourceValue { bitmap: Some(b), canvas: None, blob: None, pixels: None, bytes: vec![] };
    let e = offscreen::create_image_bitmap(&mut images, &Registry::new(), &Some(copy)).unwrap();
    assert_eq!(offscreen::image_bitmap_size(&images, b), (0, 0));
    assert_eq!(offscreen::image_bitmap_size(&images, d), (7, 7));
    assert_eq!(offscreen::image_bitmap_size(&images, e), (6, 6));
}

#[test]
fn a_canvas_is_drawn_on_another_with_its_bytes() {
    let mut images = Images::new();
    let from = images.offscreen_ctor(1, 1).unwrap();
    let to = images.offscreen_ctor(1, 1).unwrap();
    let white = Color { r: 255, g: 255, b: 255, a: 255 };
    offscreen::off_ctx_fill_rect(&mut images, from, 0, 0, 1, 1, white, 128);
    let source = ImageSource::Canvas(from);
    offscreen::off_ctx_draw_image(&mut images, to, source, 0, 0, &[0], &[0]);
    assert_eq!(
        offscreen::off_ctx_get_image_data(&images, to, 0, 0, 1, 1).data,
        vec![128, 128, 128, 128]
    );
}

#[test]
fn fill_styles_are_read() {
    assert_eq!(offscreen::parse_color("#010203", None), Some(Color { r: 1, g: 2, b: 3, a: 255 }));
    assert_eq!(offscreen::parse_color("Red", None), None);
    assert_eq!(offscreen::opacity_text("rgba(1, 2, 3, 0.5)").as_deref(), Some("0.5"));
    assert_eq!(
        offscreen::parse_color("rgba(1, 2, 3, 0.5)", Some(127)),
        Some(Color { r: 1, g: 2, b: 3, a: 127 })
    );
    assert_eq!(offscreen::parse_color("rgb(1,2,300)", None), None);
    assert_eq!(offscreen::parse_color("rgb(1,2", None), None);
    assert_eq!(offscreen::fill_color("?", None), Color { r: 0, g: 0, b: 0, a: 255 });
}

#[test]
fn audio_nodes_hear_what_leads_to_them() {
    let source = audio_ctx::build_audio_node(Some(3));
    let mut gain = audio_ctx::build_audio_node(None);
    let mut analyser = audio_ctx::create_analyser();
    audio_ctx::audio_node_connect(&source, &mut gain);
    audio_ctx::audio_node_connect(&gain, &mut analyser);
    assert_eq!(analyser.capture, Some(3));
    assert_eq!(audio_ctx::analyser_window(&analyser), 2048);
    assert_eq!(audio_ctx::recent_frames(10, 2, 3), (4, 3));
    assert_eq!(audio_ctx::recent_frames(10, 0, 99), (0, 10));
    assert_eq!(audio_ctx::frequency_entries(&[5, 6], 3), vec![5, 6, 0]);
    assert_eq!(audio_ctx::time_entries(&[], 2), vec![128, 128]);
    assert_eq!(audio_ctx::transform_length(0), 1);
    assert_eq!(audio_ctx::transform_length(5), 8);
    assert_eq!(audio_ctx::transform_length(9999), 4096);
    let v: Vec<u32> = (0..8).collect();
    let turned = audio_ctx::bit_reversed(&v, 3);
    assert_eq!(turned, vec![0, 4, 2, 6, 1, 5, 3, 7]);
    assert_eq!(audio_ctx::bit_reversed(&turned, 3), v);
}

#[test]
fn recordings_become_streams_with_tracks() {
    assert_eq!(media::wanted_devices(None), (true, false));
    assert_eq!(media::wanted_devices(Some((false, true))), (false, true));
    let mut streams: Option<Vec<Option<u32>>> = Some(Vec::new());
    assert_eq!(media::get_user_media(&mut streams, Some(9)), Ok(0));
    assert!(media::get_user_media(&mut streams, None).unwrap_err().starts_with("NotAllowedError"));
    assert_eq!(streams, Some(vec![Some(9)]));
    let stream = media::make_media_stream(12, Some(0));
    assert_eq!(stream.id, "stream-12");
    let tracks = media::stream_get_tracks(stream.capture, 1, 2);
    assert_eq!(tracks[0].id, "video-track-1");
    assert_eq!(tracks[1].label, "daboss audio");
    assert!(media::stream_get_video_tracks(None, 1).is_empty());
    let mut audio = media::stream_get_audio_tracks(Some(0), 5);
    media::track_stop(&mut audio[0]);
    assert_eq!(audio[0].ready_state, "ended");
}

#[test]
fn atomics_answer_at_once() {
    assert!(atomics::atomics_is_lock_free(None));
    assert!(atomics::atomics_is_lock_free(Some(8)));
    assert!(!atomics::atomics_is_lock_free(Some(3)));
    assert_eq!(atomics::atomics_wait(true), "not-equal");
    assert_eq!(atomics::atomics_wait(false), "ok");
    assert_eq!(atomics::atomics_bits(BitOp::And, 6, 3), 2);
    assert_eq!(atomics::atomics_bits(BitOp::Or, 6, 3), 7);
    assert_eq!(atomics::atomics_bits(BitOp::Xor, 6, 3), 5);
}
