use hotline_pmfx::device::{validate_data_size, Device, Texture};
use hotline_pmfx::error::PmfxError;
use hotline_pmfx::heap::Heap;

#[test]
fn heap_reuses_last_freed_slot() {
    let mut heap = Heap::new(1000, 32, 4);
    let mut handles = Vec::new();
    for _ in 0..4 {
        assert!(heap.can_allocate());
        handles.push(heap.allocate());
    }
    assert_eq!(handles, vec![1000, 1032, 1064, 1096]);
    assert!(!heap.can_allocate());
    heap.deallocate(2);
    assert!(heap.can_allocate());
    let again = heap.allocate();
    assert_eq!(again, handles[2]);
    assert!(!heap.can_allocate());
}

#[test]
fn heap_free_list_is_last_in_first_out() {
    let mut heap = Heap::new(0, 8, 4);
    let a = heap.allocate();
    let b = heap.allocate();
    heap.deallocate_internal(a);
    heap.deallocate_internal(b);
    assert_eq!(heap.allocate(), b);
    assert_eq!(heap.allocate(), a);
    assert_eq!(heap.allocate(), 16);
}

#[test]
fn heap_handle_index() {
    let heap = Heap::new(4096, 64, 16);
    assert_eq!(heap.get_handle_index(4096), 0);
    assert_eq!(heap.get_handle_index(4096 + 64 * 5), 5);
}

fn slots(srv: Option<usize>, rtv: Option<usize>) -> Texture {
    Texture { srv_index: srv, resolved_srv_index: None, uav_index: None, rtv, dsv: None }
}

#[test]
fn destroyed_texture_waits_for_frames_in_flight() {
    let mut device = Device::new(Heap::new(0, 16, 8), Heap::new(5000, 16, 8), Heap::new(9000, 16, 8));
    device.destroy_texture(slots(Some(3), Some(5016)));
    // two frames in flight: kept through two clean-ups, freed by the third
    assert!(device.clean_up_resources(2).is_empty());
    assert_eq!(device.cleanup_textures.len(), 1);
    assert!(device.clean_up_resources(2).is_empty());
    assert_eq!(device.cleanup_textures.len(), 1);
    let freed = device.clean_up_resources(2);
    assert_eq!(freed.len(), 1);
    assert!(device.cleanup_textures.is_empty());
    // its slots are reused next
    assert_eq!(device.shader_heap.allocate(), 48);
    assert_eq!(device.rtv_heap.allocate(), 5016);
}

#[test]
fn clean_up_frees_only_old_entries_in_order() {
    let mut device = Device::new(Heap::new(0, 1, 8), Heap::new(0, 1, 8), Heap::new(0, 1, 8));
    device.destroy_texture(slots(Some(1), None));
    device.clean_up_resources(1);
    device.destroy_texture(slots(Some(2), None));
    let freed = device.clean_up_resources(1);
    assert_eq!(freed, vec![slots(Some(1), None)]);
    assert_eq!(device.cleanup_textures.len(), 1);
    assert_eq!(device.cleanup_textures[0].0, 1);
    let freed = device.clean_up_resources(1);
    assert_eq!(freed, vec![slots(Some(2), None)]);
}

#[test]
fn texture_sampling_slot_prefers_resolve_resource() {
    let plain = Texture { srv_index: Some(1), resolved_srv_index: None, uav_index: Some(2), rtv: None, dsv: None };
    assert_eq!(plain.get_srv_index(), Some(1));
    assert_eq!(plain.get_uav_index(), Some(2));
    assert!(!plain.is_resolvable());
    let msaa = Texture { srv_index: Some(1), resolved_srv_index: Some(7), uav_index: None, rtv: None, dsv: None };
    assert_eq!(msaa.get_srv_index(), Some(7));
    assert!(msaa.is_resolvable());
}

#[test]
fn data_size_must_match_resource_size() {
    let data = [0u32; 4];
    assert!(validate_data_size(16, Some(&data[..])).is_ok());
    assert!(validate_data_size::<u32>(12, None).is_ok());
    match validate_data_size(12, Some(&data[..])) {
        Err(PmfxError::DataSize { expected, actual }) => {
            assert_eq!(expected, 12);
            assert_eq!(actual, 16);
        }
        _ => panic!("expected a data size error"),
    }
}
