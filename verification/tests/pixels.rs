use framebuffer::Color;
use framebuffer::FrameBuffer;
use framebuffer::GraphicBuffer;
use framebuffer::StencilBuffer;

#[test]
fn rgb_is_opaque() {
    let c = Color::rgb(10, 20, 30);
    assert_eq!(c.r, 10);
    assert_eq!(c.g, 20);
    assert_eq!(c.b, 30);
    assert_eq!(c.alpha, 255);
}

#[test]
fn rgba_keeps_alpha() {
    let c = Color::rgba(1, 2, 3, 4);
    assert_eq!(c.alpha, 4);
}

#[test]
fn white_and_black() {
    assert_eq!(Color::white(), Color::rgb(255, 255, 255));
    assert_eq!(Color::black(), Color::rgb(0, 0, 0));
}

#[test]
fn mask_zeroes_unkept_channels() {
    let c = Color::rgba(10, 20, 30, 40);
    assert_eq!(c.mask(true, false, true), Color::rgba(10, 0, 30, 40));
    assert_eq!(c.mask(false, false, false), Color::rgba(0, 0, 0, 40));
    assert_eq!(c.mask(true, true, true), c);
}

#[test]
fn blend_uses_truncating_division() {
    let d = Color::rgba(100, 100, 100, 255);
    let s = Color::rgba(200, 200, 200, 128);
    let mixed = d.blend(s);
    // each channel is (100 * (255 - 128) + 200 * 128) / 255 with truncating
    // integer division
    let expected = ((100u32 * 127 + 200 * 128) / 255) as u8;
    assert_eq!(mixed, Color::rgba(expected, expected, expected, 255));
}

#[test]
fn blend_preserves_destination_alpha() {
    let d = Color::rgba(10, 10, 10, 77);
    let s = Color::rgba(200, 200, 200, 128);
    assert_eq!(d.blend(s).alpha, 77);
}

#[test]
fn opaque_put_overwrites() {
    let mut buf = FrameBuffer::new(8, 8);
    let c = Color::rgb(1, 2, 3);
    buf.put_point(3, 4, c);
    assert_eq!(buf.get_point(3, 4), Some(c));
}

#[test]
fn out_of_bounds_get_is_absent() {
    let mut buf = FrameBuffer::new(8, 8);
    buf.put_point(0, 0, Color::white());
    assert_eq!(buf.get_point(-1, 0), None);
    assert_eq!(buf.get_point(0, -1), None);
    assert_eq!(buf.get_point(8, 0), None);
    assert_eq!(buf.get_point(0, 8), None);
}

#[test]
fn out_of_bounds_put_is_discarded() {
    let mut buf = FrameBuffer::new(4, 4);
    buf.put_point(-1, 0, Color::white());
    buf.put_point(4, 0, Color::white());
    buf.put_point(0, 7, Color::white());
    for y in 0..4 {
        for x in 0..4 {
            assert_eq!(buf.get_point(x, y), Some(Color::black()));
        }
    }
}

#[test]
fn transparent_put_changes_nothing() {
    let mut buf = FrameBuffer::new(4, 4);
    let base = Color::rgb(9, 8, 7);
    buf.put_point(2, 2, base);
    buf.put_point(2, 2, Color::rgba(200, 200, 200, 0));
    assert_eq!(buf.get_point(2, 2), Some(base));
    buf.put_point(1, 1, Color::rgba(200, 200, 200, 0));
    assert_eq!(buf.get_point(1, 1), Some(Color::black()));
}

#[test]
fn translucent_put_composites() {
    let mut buf = FrameBuffer::new(4, 4);
    buf.put_point(0, 0, Color::rgb(100, 100, 100));
    buf.put_point(0, 0, Color::rgba(200, 200, 200, 128));
    let expected = ((100u32 * 127 + 200 * 128) / 255) as u8;
    assert_eq!(
        buf.get_point(0, 0),
        Some(Color::rgb(expected, expected, expected))
    );
}

#[test]
fn stencil_starts_zeroed_and_overwrites() {
    let mut buf = StencilBuffer::new(5, 5);
    assert_eq!(buf.get_point(4, 4), Some(0));
    buf.put_point(4, 4, 17);
    assert_eq!(buf.get_point(4, 4), Some(17));
    buf.put_point(4, 4, 3);
    assert_eq!(buf.get_point(4, 4), Some(3));
    assert_eq!(buf.get_point(5, 4), None);
    buf.put_point(5, 4, 9);
    assert_eq!(buf.get_point(0, 0), Some(0));
}

#[test]
fn buffer_dimensions_are_fixed() {
    let frame = FrameBuffer::new(7, 9);
    assert_eq!(frame.width(), 7);
    assert_eq!(frame.height(), 9);
    let stencil = StencilBuffer::new(2, 3);
    assert_eq!(stencil.width(), 2);
    assert_eq!(stencil.height(), 3);
}

#[test]
fn ppm_bytes_of_black_square() {
    let buf = FrameBuffer::new(4, 4);
    let bytes = buf.ppm_bytes();
    let mut expected = b"P6\n4 4\n255\n".to_vec();
    expected.extend(std::iter::repeat(0u8).take(48));
    assert_eq!(bytes, expected);
}

#[test]
fn ppm_header_renders_multi_digit_dimensions() {
    let buf = FrameBuffer::new(123, 45);
    let bytes = buf.ppm_bytes();
    assert!(bytes.starts_with(b"P6\n123 45\n255\n"));
    assert_eq!(bytes.len(), b"P6\n123 45\n255\n".len() + 123 * 45 * 3);
}

#[test]
fn ppm_data_is_row_major_rgb() {
    let mut buf = FrameBuffer::new(2, 2);
    buf.put_point(0, 0, Color::rgb(1, 2, 3));
    buf.put_point(1, 0, Color::rgb(4, 5, 6));
    buf.put_point(0, 1, Color::rgb(7, 8, 9));
    buf.put_point(1, 1, Color::rgb(10, 11, 12));
    let bytes = buf.ppm_bytes();
    let header = b"P6\n2 2\n255\n";
    assert_eq!(&bytes[..header.len()], header);
    assert_eq!(&bytes[header.len()..], &[1, 2, 3, 4, 5, 6, 7, 8, 9, 10, 11, 12]);
}

#[test]
fn write_streams_all_bytes() {
    let buf = FrameBuffer::new(4, 4);
    let mut out: Vec<u8> = Vec::new();
    buf.write(&mut out).unwrap();
    assert_eq!(out, buf.ppm_bytes());
}

struct ClosedStream;

impl std::io::Write for ClosedStream {
    fn write(&mut self, _buf: &[u8]) -> std::io::Result<usize> {
        Ok(0)
    }

    fn flush(&mut self) -> std::io::Result<()> {
        Ok(())
    }
}

#[test]
fn write_reports_closed_stream() {
    let buf = FrameBuffer::new(2, 2);
    let mut out = ClosedStream;
    let err = buf.write(&mut out).unwrap_err();
    assert_eq!(err.kind(), std::io::ErrorKind::Interrupted);
}

struct TrickleStream {
    bytes: Vec<u8>,
}

impl std::io::Write for TrickleStream {
    fn write(&mut self, buf: &[u8]) -> std::io::Result<usize> {
        self.bytes.push(buf[0]);
        Ok(1)
    }

    fn flush(&mut self) -> std::io::Result<()> {
        Ok(())
    }
}

#[test]
fn write_tolerates_partial_writes() {
    let buf = FrameBuffer::new(3, 2);
    let mut out = TrickleStream { bytes: Vec::new() };
    buf.write(&mut out).unwrap();
    assert_eq!(out.bytes, buf.ppm_bytes());
}
