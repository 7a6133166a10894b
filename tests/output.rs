use vike::output::{
    frame_action, padded_bytes_per_row, unpad_rows, FrameAction, OutputSize, SurfaceError,
};
use vike::queue_family::{find_queue_families, QueueFamilyIndices};
use vike::swapchain::{choose_swap_extent, choose_swap_present_mode, swap_image_count, PresentMode};
use vike::resources::{model_url, set_base_url, BaseUrl};
use vike::RenderMode;

#[test]
fn row_padding_rounds_up() {
    assert_eq!(padded_bytes_per_row(3, 4, 256), 256);
    assert_eq!(padded_bytes_per_row(64, 4, 256), 256);
    assert_eq!(padded_bytes_per_row(65, 4, 256), 512);
    assert_eq!(padded_bytes_per_row(0, 4, 256), 0);
}

#[test]
fn unpadding_a_misaligned_width() {
    let (width, height, bpp) = (3u32, 2u32, 4u32);
    let stride = padded_bytes_per_row(width, bpp, 256);
    let mut padded = vec![0xEEu8; (stride * height) as usize];
    for y in 0..height {
        for x in 0..width * bpp {
            padded[(y * stride + x) as usize] = (y * 100 + x) as u8;
        }
    }
    let pixels = unpad_rows(&padded, width, height, stride, bpp);
    assert_eq!(pixels.len(), (width * height * bpp) as usize);
    let mut expected = Vec::new();
    for y in 0..height {
        for x in 0..width * bpp {
            expected.push((y * 100 + x) as u8);
        }
    }
    assert_eq!(pixels, expected);
    assert!(!pixels.contains(&0xEE));
}

#[test]
fn surface_resize_ignores_zero_sides() {
    let mut out = OutputSize::Surface { width: 800, height: 600 };
    assert!(!out.resize(0, 300));
    assert_eq!(out.size(), (800, 600));
    assert!(out.resize(1024, 768));
    assert_eq!(out.size(), (1024, 768));
}

#[test]
fn buffer_keeps_its_size() {
    let mut out = OutputSize::Buffer { width: 3, height: 2, padded_bytes_per_row: 256 };
    assert!(!out.resize(10, 10));
    assert_eq!(out, OutputSize::Buffer { width: 3, height: 2, padded_bytes_per_row: 256 });
}

#[test]
fn frame_outcomes() {
    let w = RenderMode::Window;
    assert_eq!(frame_action(w, None), FrameAction::Continue);
    assert_eq!(frame_action(w, Some(SurfaceError::Lost)), FrameAction::Resize);
    assert_eq!(frame_action(w, Some(SurfaceError::Outdated)), FrameAction::Resize);
    assert_eq!(frame_action(w, Some(SurfaceError::OutOfMemory)), FrameAction::Exit);
    assert_eq!(frame_action(w, Some(SurfaceError::Timeout)), FrameAction::Continue);
    let h = RenderMode::Headless;
    assert_eq!(frame_action(h, None), FrameAction::Continue);
    assert_eq!(frame_action(h, Some(SurfaceError::Lost)), FrameAction::Exit);
}

#[test]
fn base_url_is_set_once() {
    let mut base = BaseUrl::new();
    assert_eq!(model_url(&base, "cube.obj"), "http://localhost:8080/models/cube.obj");
    assert_eq!(set_base_url(&mut base, "https://example.org/assets"), Ok(()));
    assert_eq!(model_url(&base, "cube.obj"), "https://example.org/assets/cube.obj");
    assert_eq!(
        set_base_url(&mut base, "https://other.org"),
        Err("Base URL has already been set")
    );
    assert_eq!(model_url(&base, "a.png"), "https://example.org/assets/a.png");
}

#[test]
fn queue_families() {
    let mut q = QueueFamilyIndices::new();
    assert!(!q.is_complete());
    q.graphics_family = 0;
    assert!(!q.is_complete());
    q.present_family = 2;
    assert!(q.is_complete());
}

#[test]
fn queue_family_scan() {
    let q = find_queue_families(&[(false, false), (true, false), (false, true), (true, true)]);
    assert_eq!((q.graphics_family, q.present_family), (1, 2));
    let q = find_queue_families(&[(true, true), (true, true)]);
    assert_eq!((q.graphics_family, q.present_family), (0, 0));
    let q = find_queue_families(&[(false, true), (false, false)]);
    assert_eq!((q.graphics_family, q.present_family), (-1, 0));
    assert!(!q.is_complete());
}

#[test]
fn swap_chain_choices() {
    assert_eq!(choose_swap_present_mode(true, true), PresentMode::Mailbox);
    assert_eq!(choose_swap_present_mode(false, true), PresentMode::Immediate);
    assert_eq!(choose_swap_present_mode(false, false), PresentMode::Fifo);
    assert_eq!(choose_swap_extent(Some([1920, 1080]), [1, 1], [4096, 4096]), [1920, 1080]);
    assert_eq!(choose_swap_extent(None, [1, 1], [4096, 4096]), [800, 600]);
    assert_eq!(choose_swap_extent(None, [1, 700], [640, 4096]), [640, 700]);
    assert_eq!(swap_image_count(2, None), 3);
    assert_eq!(swap_image_count(2, Some(2)), 2);
    assert_eq!(swap_image_count(2, Some(8)), 3);
}
