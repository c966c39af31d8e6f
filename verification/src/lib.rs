//! Verified user-space services of the Morion operating system: block
//! volumes, file systems, mount routing, keyboard decoding, shell parsing and
//! line-buffered printing, all as functions over plain values.
pub mod bytes;
pub mod calendar;
pub mod client;
pub mod descriptors;
pub mod device_laws;
pub mod disk;
pub mod clock_laws;
pub mod descriptor_laws;
pub mod domain;
pub mod exfat;
pub mod exfat_cut;
pub mod exfat_dir;
pub mod exfat_file;
pub mod exfat_frame;
pub mod exfat_laws;
pub mod exfat_list;
pub mod exfat_mount;
pub mod exfat_resize;
pub mod exfat_rules;
pub mod exfat_sets;
pub mod exfat_srv;
pub mod exfat_tree;
pub mod exfat_write;
pub mod ext2;
pub mod ext2_laws;
pub mod ext2_tree;
pub mod fat;
pub mod fat_dir;
pub mod fat_entry;
pub mod fat_file;
pub mod fat_frame;
pub mod fat_laws;
pub mod fat_list;
pub mod fat_long;
pub mod fat_name;
pub mod fat_rules;
pub mod fat_srv;
pub mod fat_tree;
pub mod ide;
pub mod free_space;
pub mod kbd;
pub mod mfs;
pub mod mfs_alike;
pub mod mfs_cow;
pub mod mfs_cut;
pub mod mfs_dir;
pub mod mfs_file;
pub mod mfs_frame;
pub mod mfs_gc;
pub mod mfs_gc_laws;
pub mod mfs_itab;
pub mod mfs_laws;
pub mod mfs_links;
pub mod mfs_meta;
pub mod mfs_moves;
pub mod mfs_list;
pub mod mfs_names;
pub mod mfs_new;
pub mod mfs_path;
pub mod mfs_persist;
pub mod mfs_reach;
pub mod mfs_refusals;
pub mod mfs_rename;
pub mod mfs_ring;
pub mod mfs_snap;
pub mod mfs_srv;
pub mod mfs_start;
pub mod mfs_tree;
pub mod mfs_via;
pub mod mfs_vol;
pub mod mfs_ways;
pub mod mount;
pub mod mount_laws;
pub mod nvme;
pub mod nvme_laws;
pub mod path;
pub mod path_laws;
pub mod request_laws;
pub mod print;
pub mod shell;
pub mod shell_laws;
pub mod shell_talk;
pub mod text;
pub mod text_laws;
pub mod tmpfs;
pub mod tmpfs_laws;
pub mod tmpfs_rules;
pub mod vfs;
pub mod volume;
pub mod volume_laws;
pub mod wire;
pub mod wire_laws;
