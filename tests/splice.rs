use oggvorbismeta::{
    find_comment_header, make_comment_header, replace_packets, CommentHeader, Error, OutPacket, Packet, VorbisComments,
    PacketEnd,
};

fn packet(serial: u32, data: Vec<u8>, pos: u64, last_in_page: bool, last_in_stream: bool) -> Packet {
    Packet { data, stream_serial: serial, absgp_page: pos, last_in_page, last_in_stream }
}

fn header(vendor: &str, tags: &[(&str, &str)]) -> CommentHeader {
    let mut h = CommentHeader::new();
    h.set_vendor(vendor);
    for (k, v) in tags {
        h.add_tag_single(k, v);
    }
    h
}

fn block(h: &CommentHeader) -> Vec<u8> {
    make_comment_header(h).unwrap()
}

fn same(out: &OutPacket, p: &Packet) -> bool {
    out.data == p.data && out.stream_serial == p.stream_serial && out.absgp_page == p.absgp_page
}

fn as_input(out: &[OutPacket]) -> Vec<Packet> {
    out.iter()
        .map(|o| packet(o.stream_serial, o.data.clone(), o.absgp_page, o.end != PacketEnd::NormalPacket, o.end == PacketEnd::EndStream))
        .collect()
}

fn sample() -> Vec<Packet> {
    let old = header("old", &[("title", "Noise")]);
    vec![
        packet(7, vec![1, 118, 111, 114, 98, 105, 115], 0, true, false),
        packet(7, block(&old), 0, false, false),
        packet(7, vec![5, 0, 0], 0, true, false),
        packet(7, vec![0, 1, 2, 3], 4096, false, false),
        packet(7, vec![9, 9], 8192, true, true),
    ]
}

#[test]
fn end_to_end_splice() {
    let input = sample();
    let new = header("Ogg", &[("artist", "Some Guy"), ("album", "Greatest Hits")]);
    let out = replace_packets(&input, &new).unwrap();
    assert_eq!(out.len(), input.len());
    for (i, (o, p)) in out.iter().zip(input.iter()).enumerate() {
        if i == 1 {
            assert_eq!(o.data, block(&new));
        } else {
            assert!(same(o, p));
        }
    }
    let found = find_comment_header(&as_input(&out)).unwrap();
    assert_eq!(found.get_vendor(), "Ogg");
    assert_eq!(found.comment_list, new.comment_list);
}

#[test]
fn read_from_packets() {
    let found = find_comment_header(&sample()).unwrap();
    assert_eq!(found.get_tag_single("title").unwrap(), "Noise".to_string());
}

#[test]
fn end_markers_follow_flags() {
    let out = replace_packets(&sample(), &CommentHeader::new()).unwrap();
    let ends: Vec<PacketEnd> = out.iter().map(|o| o.end).collect();
    assert_eq!(
        ends,
        vec![
            PacketEnd::EndPage,
            PacketEnd::NormalPacket,
            PacketEnd::EndPage,
            PacketEnd::NormalPacket,
            PacketEnd::EndStream
        ]
    );
}

#[test]
fn other_streams_pass_through_unprobed() {
    let foreign = block(&header("foreign", &[("x", "y")]));
    let own = block(&header("own", &[]));
    let input = vec![
        packet(1, vec![1, 2, 3], 0, true, false),
        packet(2, foreign.clone(), 0, true, false),
        packet(1, own, 0, true, false),
        packet(1, vec![4], 10, true, true),
    ];
    let new = header("new", &[]);
    let out = replace_packets(&input, &new).unwrap();
    assert_eq!(out[1].data, foreign);
    assert_eq!(out[1].stream_serial, 2);
    assert_eq!(out[2].data, block(&new));
    assert_eq!(find_comment_header(&input).unwrap().get_vendor(), "own");
}

#[test]
fn only_first_header_is_replaced() {
    let a = block(&header("a", &[]));
    let input = vec![
        packet(3, vec![1], 0, true, false),
        packet(3, a.clone(), 0, false, false),
        packet(3, a.clone(), 0, true, true),
    ];
    let out = replace_packets(&input, &header("b", &[])).unwrap();
    assert_eq!(out[1].data, block(&header("b", &[])));
    assert_eq!(out[2].data, a);
}

#[test]
fn forwarding_stops_after_group_end() {
    let mut input = sample();
    input.push(packet(8, vec![1, 2], 0, true, true));
    let out = replace_packets(&input, &CommentHeader::new()).unwrap();
    assert_eq!(out.len(), 5);
}

#[test]
fn no_header_is_not_an_error_for_splice() {
    let input = vec![packet(1, vec![1], 0, true, false), packet(1, vec![2], 0, true, true)];
    let out = replace_packets(&input, &header("n", &[])).unwrap();
    assert!(out.iter().zip(input.iter()).all(|(o, p)| same(o, p)));
}

#[test]
fn find_reports_not_found() {
    let input = vec![packet(1, vec![1], 0, true, false), packet(2, block(&header("x", &[])), 0, true, true)];
    assert_eq!(find_comment_header(&input).err(), Some(Error::NotFound));
    assert_eq!(find_comment_header(&Vec::new()).err(), Some(Error::NotFound));
}

#[test]
fn find_skips_first_packet() {
    let h = block(&header("first", &[]));
    let input = vec![packet(1, h.clone(), 0, true, false), packet(1, vec![0], 0, true, true)];
    assert_eq!(find_comment_header(&input).err(), Some(Error::NotFound));
}

#[test]
fn empty_input_gives_empty_output() {
    assert!(replace_packets(&Vec::new(), &CommentHeader::new()).unwrap().is_empty());
}
