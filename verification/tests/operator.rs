use layerstore::Buffer;
use layerstore::CaesarCipherLayer;
use layerstore::EntryMode;
use layerstore::ErrorKind;
use layerstore::Layer;
use layerstore::MemoryBackend;
use layerstore::Operator;

fn bytes_of(s: &str) -> Vec<u8> {
    s.as_bytes().to_vec()
}

fn buffer_of(s: &str) -> Buffer {
    Buffer::from_vec(bytes_of(s))
}

/// Logging, then the cipher, then tracing: the chain of the demo pipeline.
fn demo_operator() -> Operator {
    Operator::new(MemoryBackend::new())
        .layer(Layer::Logging)
        .layer(Layer::Caesar(CaesarCipherLayer::new(3)))
        .layer(Layer::Fastrace)
}

fn passthrough_operator() -> Operator {
    Operator::new(MemoryBackend::new()).layer(Layer::Logging).layer(Layer::Fastrace)
}

#[test]
fn write_then_read_roundtrip_passthrough_chain() {
    let mut op = passthrough_operator();
    op.write("hello.txt", &buffer_of("Hello, World!"));
    let read = op.read("hello.txt").unwrap();
    assert_eq!(read.to_vec(), bytes_of("Hello, World!"));
}

#[test]
fn write_then_read_roundtrip_cipher_chain() {
    let mut op = demo_operator();
    op.write("hello.txt", &buffer_of("Hello, World!"));
    let read = op.read("hello.txt").unwrap();
    assert_eq!(read.to_vec(), bytes_of("Hello, World!"));
}

#[test]
fn read_never_written_path_is_not_found() {
    let op = demo_operator();
    let r = op.read("missing.txt");
    assert_eq!(r.err(), Some(ErrorKind::NotFound));
    let r2 = passthrough_operator().read("also-missing");
    assert_eq!(r2.err(), Some(ErrorKind::NotFound));
}

#[test]
fn append_concatenates() {
    let mut op = demo_operator();
    op.write("f", &buffer_of("AB"));
    op.write_append("f", &buffer_of("CD"));
    let read = op.read("f").unwrap();
    assert_eq!(read.to_vec(), bytes_of("ABCD"));
}

#[test]
fn append_to_absent_file_creates_it() {
    let mut op = demo_operator();
    op.write_append("f", &buffer_of("CD"));
    let read = op.read("f").unwrap();
    assert_eq!(read.to_vec(), bytes_of("CD"));
}

#[test]
fn overwrite_replaces_whole_contents() {
    let mut op = demo_operator();
    op.write("f", &buffer_of("a long piece of text that takes some room"));
    op.write("f", &buffer_of("short"));
    let read = op.read("f").unwrap();
    assert_eq!(read.to_vec(), bytes_of("short"));
}

#[test]
fn cipher_layer_stores_shifted_bytes() {
    // The chain of the demo program: logging, then the cipher with shift 3.
    let mut op = Operator::new(MemoryBackend::new())
        .layer(Layer::Logging)
        .layer(Layer::Caesar(CaesarCipherLayer::new(3)));
    op.write("hello.txt", &buffer_of("Hello, World!"));

    // End to end the encryption is transparent.
    let read = op.read("hello.txt").unwrap();
    assert_eq!(read.to_vec(), bytes_of("Hello, World!"));

    // A raw peek at the leaf backend, bypassing the cipher (the blocking
    // variant is not intercepted), shows the ciphertext.
    let raw = op.blocking_read("hello.txt").unwrap();
    assert_eq!(
        raw.to_vec(),
        vec![75u8, 104, 111, 111, 114, 44, 32, 90, 114, 117, 111, 103, 33]
    );
    let leaf = op.inner().read("hello.txt").unwrap();
    assert_eq!(leaf.to_vec(), raw.to_vec());
}

#[test]
fn concurrent_chunked_read_equals_direct_read() {
    let mut op = demo_operator();
    let text = "The pipeline reassembles concurrent sub-range reads in range order.";
    op.write("c.txt", &buffer_of(text));
    let direct = op.read("c.txt").unwrap().to_vec();
    for chunk in [1usize, 2, 3, 5, 7, 64, 1000] {
        for concurrency in [1usize, 4] {
            let chunked = op.read_concurrent("c.txt", chunk, concurrency).unwrap();
            assert_eq!(chunked.to_vec(), direct);
        }
    }
    assert_eq!(
        op.read_concurrent("missing", 8, 2).err(),
        Some(ErrorKind::NotFound)
    );
}

#[test]
fn reader_handle_chunks_and_ranges() {
    let mut op = demo_operator();
    op.write("r.txt", &buffer_of("Hello, World!"));

    // Chunked reading of the whole file.
    let mut rd = op.reader_with("r.txt", 0, None, 5).unwrap();
    let mut collected = Vec::new();
    while let Some(b) = rd.read_next() {
        let piece = b.to_vec();
        assert!(piece.len() <= 5);
        collected.extend(piece);
    }
    assert_eq!(collected, bytes_of("Hello, World!"));

    // A bounded sub-range decodes to the matching slice of the plaintext:
    // the transform is position-independent.
    let mut rd2 = op.reader_with("r.txt", 7, Some(12), 0).unwrap();
    let part = rd2.read_remaining();
    assert_eq!(part.to_vec(), bytes_of("World"));

    // An overlong end is clamped to the file's end.
    let mut rd3 = op.reader_with("r.txt", 7, Some(1000), 0).unwrap();
    assert_eq!(rd3.read_remaining().to_vec(), bytes_of("World!"));

    // A start past the end selects the empty range.
    let mut rd4 = op.reader_with("r.txt", 1000, None, 0).unwrap();
    assert_eq!(rd4.read_remaining().to_vec(), Vec::<u8>::new());
    assert!(rd4.read_next().is_none());

    assert_eq!(
        op.reader_with("missing", 0, None, 0).err(),
        Some(ErrorKind::NotFound)
    );
}

#[test]
fn writer_handle_buffers_until_close() {
    let mut op = demo_operator();
    let mut w = op.writer_with("w.txt", false);
    w.write(&buffer_of("Hello"));
    w.write(&buffer_of(", World!"));
    // Nothing reaches the backend before close.
    assert_eq!(op.read("w.txt").err(), Some(ErrorKind::NotFound));
    let meta = w.close(&mut op).unwrap();
    assert_eq!(meta.mode, EntryMode::File);
    assert_eq!(meta.content_length, "Hello, World!".len());
    assert_eq!(op.read("w.txt").unwrap().to_vec(), bytes_of("Hello, World!"));
}

#[test]
fn writer_abort_discards_buffered_chunks() {
    let mut op = demo_operator();
    let mut w = op.writer_with("a.txt", false);
    w.write(&buffer_of("doomed"));
    w.abort();
    // The handle was aborted and never closed: nothing was written.
    drop(w);
    assert_eq!(op.read("a.txt").err(), Some(ErrorKind::NotFound));
}

#[test]
fn dropped_writer_leaves_no_partial_write() {
    let mut op = demo_operator();
    {
        let mut w = op.writer_with("d.txt", false);
        w.write(&buffer_of("partial"));
        // Abandoned without close.
    }
    assert_eq!(op.read("d.txt").err(), Some(ErrorKind::NotFound));
}

#[test]
fn stat_reports_logical_length_and_mode() {
    let mut op = demo_operator();
    op.write("s.txt", &buffer_of("Hello, World!"));
    let meta = op.stat("s.txt").unwrap();
    assert_eq!(meta.mode, EntryMode::File);
    assert_eq!(meta.content_length, 13);
    op.create_dir("docs/");
    let dmeta = op.stat("docs/").unwrap();
    assert_eq!(dmeta.mode, EntryMode::Dir);
    assert_eq!(dmeta.content_length, 0);
    assert_eq!(op.stat("missing").err(), Some(ErrorKind::NotFound));
}

#[test]
fn delete_removes_and_is_idempotent() {
    let mut op = demo_operator();
    op.write("g.txt", &buffer_of("data"));
    op.delete("g.txt");
    assert_eq!(op.read("g.txt").err(), Some(ErrorKind::NotFound));
    // Deleting again is fine.
    op.delete("g.txt");
    assert_eq!(op.read("g.txt").err(), Some(ErrorKind::NotFound));
}

#[test]
fn list_names_every_file_once() {
    let mut op = demo_operator();
    op.write("a.txt", &buffer_of("1"));
    op.write("b.txt", &buffer_of("2"));
    op.write("a.txt", &buffer_of("3"));
    let mut names = op.list();
    names.sort();
    assert_eq!(names, vec!["a.txt".to_string(), "b.txt".to_string()]);
}

#[test]
fn copy_duplicates_contents() {
    let mut op = demo_operator();
    op.write("src.txt", &buffer_of("payload"));
    op.copy("src.txt", "dst.txt").unwrap();
    assert_eq!(op.read("src.txt").unwrap().to_vec(), bytes_of("payload"));
    assert_eq!(op.read("dst.txt").unwrap().to_vec(), bytes_of("payload"));
    assert_eq!(op.copy("missing", "x").err(), Some(ErrorKind::NotFound));
}

#[test]
fn rename_moves_contents() {
    let mut op = demo_operator();
    op.write("old.txt", &buffer_of("payload"));
    op.rename("old.txt", "new.txt").unwrap();
    assert_eq!(op.read("old.txt").err(), Some(ErrorKind::NotFound));
    assert_eq!(op.read("new.txt").unwrap().to_vec(), bytes_of("payload"));
    assert_eq!(op.rename("missing", "x").err(), Some(ErrorKind::NotFound));
}

#[test]
fn presign_is_unsupported_on_memory_backend() {
    let op = demo_operator();
    assert_eq!(op.presign("any").err(), Some(ErrorKind::Unsupported));
}

#[test]
fn passthrough_operations_match_leaf_backend() {
    // The same sequence of unintercepted operations on a bare leaf and on a
    // composite with observe-only and cipher layers: identical outcomes.
    let mut leaf = MemoryBackend::new();
    let mut op = demo_operator();

    leaf.write("p.txt", false, &buffer_of("content"));
    op.blocking_write("p.txt", &buffer_of("content"));

    let m1 = leaf.stat("p.txt").unwrap();
    let m2 = op.stat("p.txt").unwrap();
    assert_eq!(m1, m2);

    leaf.create_dir("d/");
    op.create_dir("d/");
    assert_eq!(leaf.stat("d/").unwrap(), op.stat("d/").unwrap());

    leaf.copy("p.txt", "q.txt").unwrap();
    op.copy("p.txt", "q.txt").unwrap();
    leaf.rename("q.txt", "r.txt").unwrap();
    op.rename("q.txt", "r.txt").unwrap();

    let mut l1 = leaf.list();
    let mut l2 = op.list();
    l1.sort();
    l2.sort();
    assert_eq!(l1, l2);

    assert_eq!(leaf.presign("p.txt").err(), op.presign("p.txt").err());
    assert_eq!(leaf.stat("missing").err(), op.stat("missing").err());

    leaf.delete("p.txt");
    op.delete("p.txt");
    assert_eq!(leaf.read("p.txt").err(), op.read("p.txt").err());
}

#[test]
fn blocking_write_is_not_intercepted() {
    // The cipher layer transforms only the non-blocking streams: bytes stored
    // through the blocking variant land unshifted, and a non-blocking read
    // then unshifts them.
    let mut op = Operator::new(MemoryBackend::new()).layer(Layer::Caesar(CaesarCipherLayer::new(3)));
    op.blocking_write("b.txt", &buffer_of("abc"));
    assert_eq!(op.blocking_read("b.txt").unwrap().to_vec(), bytes_of("abc"));
    assert_eq!(op.read("b.txt").unwrap().to_vec(), bytes_of("xyz"));
}

#[test]
fn two_cipher_layers_compose_and_invert() {
    let mut op = Operator::new(MemoryBackend::new())
        .layer(Layer::Caesar(CaesarCipherLayer::new(3)))
        .layer(Layer::Caesar(CaesarCipherLayer::new(5)));
    op.write("t.txt", &buffer_of("Hello, World!"));
    assert_eq!(op.read("t.txt").unwrap().to_vec(), bytes_of("Hello, World!"));
    // The stored bytes carry both shifts: 3 + 5 = 8.
    let expected = CaesarCipherLayer::new(8)
        .encrypt_buffer(buffer_of("Hello, World!"))
        .to_vec();
    assert_eq!(op.blocking_read("t.txt").unwrap().to_vec(), expected);
}

#[test]
fn one_layer_value_builds_independent_pipelines() {
    // A layer is a pure factory: applying the same configuration to two
    // different leaf backends yields non-interfering composites.
    let cipher = CaesarCipherLayer::new(3);
    let mut op1 = Operator::new(MemoryBackend::new()).layer(Layer::Caesar(cipher));
    let mut op2 = Operator::new(MemoryBackend::new()).layer(Layer::Caesar(cipher));
    op1.write("f", &buffer_of("one"));
    op2.write("f", &buffer_of("two"));
    assert_eq!(op1.read("f").unwrap().to_vec(), bytes_of("one"));
    assert_eq!(op2.read("f").unwrap().to_vec(), bytes_of("two"));
    op1.delete("f");
    assert_eq!(op1.read("f").err(), Some(ErrorKind::NotFound));
    assert_eq!(op2.read("f").unwrap().to_vec(), bytes_of("two"));
}
